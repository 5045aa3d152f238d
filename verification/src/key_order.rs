//! The order of keys that are made of numbers.
use crate::comparator;
use crate::lexicographic;
use crate::slot_sort::sort_slots;
use crate::snapshot;
use core::cmp::Ordering;
use vstd::prelude::*;

verus! {

/// A key as numbers.
pub open spec fn numbers(key: Seq<u16>) -> Seq<int> {
    key.map_values(|n: u16| n as int)
}

/// The key of a place; a place without one has an empty one.
pub open spec fn key_at(keys: Seq<Vec<u16>>, place: u32) -> Seq<int> {
    if place < keys.len() {
        numbers(keys[place + 0]@)
    } else {
        Seq::empty()
    }
}

pub(crate) fn place_of(index: u32) -> (place: usize)
    ensures
        place == index,
{
    index as usize
}

fn compare_numbers(a: &Vec<u16>, b: &Vec<u16>) -> (order: Ordering)
    ensures
        order == lexicographic::lexicographic(numbers(a@), numbers(b@)),
{
    let ghost (x, y) = (numbers(a@), numbers(b@));
    let mut next: usize = 0;
    while next < a.len() && next < b.len()
        invariant
            next <= a@.len(),
            next <= b@.len(),
            x == numbers(a@),
            y == numbers(b@),
            x.take(comparator::ix(next)) == y.take(comparator::ix(next)),
        decreases a@.len() - next,
    {
        let ghost n = comparator::ix(next);
        if a[next] != b[next] {
            proof {
                lexicographic::lemma_lexicographic_differs(x, y, n);
            }
            return if a[next] < b[next] {
                Ordering::Less
            } else {
                Ordering::Greater
            };
        }
        assert(x.take(n + 1) =~= x.take(n).push(x[n]));
        assert(y.take(n + 1) =~= y.take(n).push(y[n]));
        next = next + 1;
    }
    let ghost n = comparator::ix(next);
    proof {
        assert(x =~= x.take(n) + x.skip(n));
        assert(y =~= y.take(n) + y.skip(n));
        lexicographic::lemma_lexicographic_prefix(x.take(n), x.skip(n), y.skip(n));
    }
    if next < a.len() {
        Ordering::Greater
    } else if next < b.len() {
        Ordering::Less
    } else {
        Ordering::Equal
    }
}

fn compare_places(keys: &Vec<Vec<u16>>, a: u32, b: u32) -> (order: Ordering)
    ensures
        order == lexicographic::lexicographic(key_at(keys@, a), key_at(keys@, b)),
{
    let none: Vec<u16> = Vec::new();
    assert(numbers(none@) =~= Seq::empty());
    let (first, second) = (place_of(a), place_of(b));
    let left = if first < keys.len() {
        &keys[first]
    } else {
        &none
    };
    let right = if second < keys.len() {
        &keys[second]
    } else {
        &none
    };
    compare_numbers(left, right)
}

proof fn lemma_total(keys: Seq<Vec<u16>>, order: spec_fn(u32, u32) -> Ordering)
    requires
        forall|a: u32, b: u32| #[trigger]
            order(a, b) == lexicographic::lexicographic(key_at(keys, a), key_at(keys, b)),
    ensures
        comparator::total_preorder(order),
{
    assert forall|a: u32| #[trigger] order(a, a) == Ordering::Equal by {
        lexicographic::lemma_lexicographic_opposite(key_at(keys, a), key_at(keys, a));
    }
    assert forall|a: u32, b: u32|
        (#[trigger] order(a, b) == Ordering::Less) == (order(b, a) == Ordering::Greater) by {
        lexicographic::lemma_lexicographic_opposite(key_at(keys, a), key_at(keys, b));
    }
    assert forall|a: u32, b: u32, c: u32|
        #[trigger] order(a, b) != Ordering::Greater && #[trigger] order(b, c)
            != Ordering::Greater implies order(a, c) != Ordering::Greater by {
        lexicographic::lemma_lexicographic_transitive(
            key_at(keys, a),
            key_at(keys, b),
            key_at(keys, c),
        );
    }
}

/// Places that name every one of so many once.
pub open spec fn every_place_once(places: Seq<u32>, count: nat) -> bool {
    &&& places.len() == count
    &&& places.no_duplicates()
    &&& forall|i: int| 0 <= i < places.len() ==> (#[trigger] places[i]) < count
}

fn first_places(count: u32) -> (places: Vec<u32>)
    ensures
        every_place_once(places@, count as nat),
        forall|i: int| 0 <= i < places@.len() ==> #[trigger] places@[i] == i,
{
    let mut places: Vec<u32> = Vec::new();
    let mut next: u32 = 0;
    while next < count
        invariant
            next <= count,
            places@.len() == next,
            forall|i: int| 0 <= i < places@.len() ==> #[trigger] places@[i] == i,
        decreases count - next,
    {
        places.push(next);
        next = next + 1;
    }
    places
}

fn never() -> (stop: bool)
    ensures
        !stop,
{
    false
}

/// The places of some keys in the order of the keys.
pub(crate) fn sorted_places(keys: &Vec<Vec<u16>>, count: u32) -> (places: Vec<u32>)
    requires
        keys@.len() == count,
    ensures
        every_place_once(places@, keys@.len()),
        forall|place: u32| place < keys@.len() ==> #[trigger] places@.contains(place),
        forall|i: int, j: int|
            0 <= i < j < places@.len() ==> lexicographic::lexicographic(
                key_at(keys@, #[trigger] places@[i]),
                key_at(keys@, #[trigger] places@[j]),
            ) != Ordering::Greater,
{
    let mut places = first_places(count);
    let compare = |a: u32, b: u32| -> (o: Ordering)
        ensures
            o == lexicographic::lexicographic(key_at(keys@, a), key_at(keys@, b)),
        { compare_places(keys, a, b) };
    let ghost given = places@;
    let ghost order = |a: u32, b: u32|
        lexicographic::lexicographic(key_at(keys@, a), key_at(keys@, b));
    proof {
        lemma_total(keys@, order);
        assert(comparator::fits(compare, order));
    }
    let result = sort_slots(&mut places, compare, never);
    proof {
        if result is Err {
            assert(call_ensures(never, (), true));
        }
        snapshot::lemma_permuted(given, places@);
        assert forall|i: int| 0 <= i < places@.len() implies (#[trigger] places@[i]) < count by {
            assert(places@.contains(places@[i]));
            assert(given.to_set().contains(places@[i]));
        }
        assert forall|place: u32| place < keys@.len() implies #[trigger] places@.contains(place) by {
            assert(given[place + 0] == place);
            assert(given.to_set().contains(place));
        }
        assert forall|i: int, j: int| 0 <= i < j < places@.len() implies lexicographic::lexicographic(
            key_at(keys@, #[trigger] places@[i]),
            key_at(keys@, #[trigger] places@[j]),
        ) != Ordering::Greater by {
            assert(comparator::at_most(compare, places@[i], places@[j]));
            assert(order(places@[i], places@[j]) != Ordering::Greater);
        }
    }
    places
}

} // verus!
