//! Texts in the order of their bytes.
use crate::text;
use crate::text::same_text;
use vstd::prelude::*;

verus! {

/// Whether some bytes come before others.
pub open spec fn bytes_before(a: Seq<u8>, b: Seq<u8>) -> bool
    decreases a.len(),
{
    if b.len() == 0 {
        false
    } else if a.len() == 0 {
        true
    } else if a[0] != b[0] {
        a[0] < b[0]
    } else {
        bytes_before(a.drop_first(), b.drop_first())
    }
}

/// Whether a text comes before another.
pub open spec fn text_before(a: Seq<char>, b: Seq<char>) -> bool {
    bytes_before(text::bytes_of(a), text::bytes_of(b))
}

/// Each text comes before all that follow it: sorted, and nothing occurs twice.
pub open spec fn ascending(texts: Seq<Seq<char>>) -> bool {
    forall|i: int, j: int|
        0 <= i < j < texts.len() ==> text_before(#[trigger] texts[i], #[trigger] texts[j])
}

/// The different texts among some, in order.
pub open spec fn sorted_distinct(texts: Seq<Seq<char>>) -> Seq<Seq<char>> {
    choose|sorted: Seq<Seq<char>>| ascending(sorted) && sorted.to_set() == texts.to_set()
}

pub proof fn lemma_bytes_irreflexive(a: Seq<u8>)
    ensures
        !bytes_before(a, a),
    decreases a.len(),
{
    if a.len() > 0 {
        lemma_bytes_irreflexive(a.drop_first());
    }
}

pub proof fn lemma_bytes_transitive(a: Seq<u8>, b: Seq<u8>, c: Seq<u8>)
    requires
        bytes_before(a, b),
        bytes_before(b, c),
    ensures
        bytes_before(a, c),
    decreases a.len(),
{
    if a.len() > 0 && a[0] == b[0] && b[0] == c[0] {
        lemma_bytes_transitive(a.drop_first(), b.drop_first(), c.drop_first());
    }
}

proof fn lemma_bytes_total(a: Seq<u8>, b: Seq<u8>)
    ensures
        a == b || bytes_before(a, b) || bytes_before(b, a),
    decreases a.len(),
{
    if a.len() == 0 || b.len() == 0 {
        if a.len() == 0 && b.len() == 0 {
            assert(a =~= b);
        }
    } else if a[0] == b[0] {
        lemma_bytes_total(a.drop_first(), b.drop_first());
        if a.drop_first() == b.drop_first() {
            assert(a =~= seq![a[0]] + a.drop_first());
            assert(b =~= seq![b[0]] + b.drop_first());
        }
    }
}

/// The order of texts is strict and total.
pub proof fn lemma_text_order(a: Seq<char>, b: Seq<char>)
    ensures
        !text_before(a, a),
        !(text_before(a, b) && text_before(b, a)),
        a == b || text_before(a, b) || text_before(b, a),
{
    let (x, y) = (text::bytes_of(a), text::bytes_of(b));
    lemma_bytes_irreflexive(x);
    lemma_bytes_total(x, y);
    if bytes_before(x, y) && bytes_before(y, x) {
        lemma_bytes_transitive(x, y, x);
    }
    if x == y {
        text::lemma_same_bytes(a, b);
    }
}

pub proof fn lemma_text_transitive(a: Seq<char>, b: Seq<char>, c: Seq<char>)
    requires
        text_before(a, b),
        text_before(b, c),
    ensures
        text_before(a, c),
{
    lemma_bytes_transitive(text::bytes_of(a), text::bytes_of(b), text::bytes_of(c));
}

/// Ascending texts are determined by which texts they are.
pub proof fn lemma_ascending_unique(a: Seq<Seq<char>>, b: Seq<Seq<char>>)
    requires
        ascending(a),
        ascending(b),
        a.to_set() == b.to_set(),
    ensures
        a == b,
    decreases a.len(),
{
    assert forall|t: Seq<char>| a.contains(t) == #[trigger] b.contains(t) by {
        assert(a.to_set().contains(t) == a.contains(t));
        assert(b.to_set().contains(t) == b.contains(t));
    }
    if a.len() == 0 {
        if b.len() > 0 {
            assert(b.contains(b[0]));
        }
        assert(a =~= b);
    } else if b.len() == 0 {
        assert(a.contains(a[0]));
        assert(b.contains(a[0]));
    } else {
        let (x, y) = (a.last(), b.last());
        assert(a.contains(x) && b.contains(y));
        assert(b.contains(x) && a.contains(y));
        let i = choose|i: int| 0 <= i < b.len() && b[i] == x;
        let j = choose|j: int| 0 <= j < a.len() && a[j] == y;
        lemma_text_order(x, y);
        if x != y {
            assert(text_before(b[i], b[b.len() - 1]));
            assert(text_before(a[j], a[a.len() - 1]));
        }
        let (p, q) = (a.drop_last(), b.drop_last());
        assert forall|t: Seq<char>| #[trigger] p.to_set().contains(t) == q.to_set().contains(t) by {
            if p.contains(t) {
                let k = choose|k: int| 0 <= k < p.len() && p[k] == t;
                assert(text_before(a[k], a[a.len() - 1]));
                lemma_text_order(t, x);
                assert(a[k] == t);
                assert(b.contains(t));
                let m = choose|m: int| 0 <= m < b.len() && b[m] == t;
                assert(q[m] == t);
            }
            if q.contains(t) {
                let k = choose|k: int| 0 <= k < q.len() && q[k] == t;
                assert(text_before(b[k], b[b.len() - 1]));
                lemma_text_order(t, y);
                assert(b[k] == t);
                assert(b.contains(t));
                assert(a.contains(t));
                let m = choose|m: int| 0 <= m < a.len() && a[m] == t;
                assert(p[m] == t);
            }
        }
        assert(p.to_set() =~= q.to_set());
        lemma_ascending_unique(p, q);
        assert(a =~= p.push(x));
        assert(b =~= q.push(y));
    }
}

/// `std`'s `sort` on strings: the same texts in the order of their bytes.
#[verifier::external_body]
fn sort_texts(target: &mut Vec<String>)
    ensures
        text::texts(final(target)@).to_multiset() == text::texts(old(target)@).to_multiset(),
        forall|i: int, j: int|
            0 <= i < j < final(target)@.len() ==> !text_before(
                (#[trigger] final(target)@[j])@,
                (#[trigger] final(target)@[i])@,
            ),
{
    target.sort();
}

/// The different texts among some, in the order of their bytes.
pub fn sort_distinct(unsorted: Vec<String>) -> (sorted: Vec<String>)
    ensures
        text::texts(sorted@) == sorted_distinct(text::texts(unsorted@)),
        ascending(text::texts(sorted@)),
        text::texts(sorted@).to_set() == text::texts(unsorted@).to_set(),
{
    let ghost given = text::texts(unsorted@);
    let mut all = unsorted;
    sort_texts(&mut all);
    let ghost ordered = text::texts(all@);
    proof {
        given.to_multiset_ensures();
        ordered.to_multiset_ensures();
        assert forall|t: Seq<char>| #[trigger]
            ordered.to_set().contains(t) == given.to_set().contains(t) by {
            assert(ordered.contains(t) == (ordered.to_multiset().count(t) > 0));
            assert(given.contains(t) == (given.to_multiset().count(t) > 0));
        }
        assert(ordered.to_set() =~= given.to_set());
    }
    let mut sorted: Vec<String> = Vec::new();
    let mut next: usize = 0;
    assert(text::texts(sorted@).to_set() =~= ordered.take(0).to_set());
    while next < all.len()
        invariant
            next <= all@.len(),
            ordered == text::texts(all@),
            forall|i: int, j: int|
                0 <= i < j < all@.len() ==> !text_before(
                    (#[trigger] all@[j])@,
                    (#[trigger] all@[i])@,
                ),
            ascending(text::texts(sorted@)),
            text::texts(sorted@).to_set() == ordered.take(next as int).to_set(),
            next > 0 ==> sorted@.len() > 0 && sorted@[sorted@.len() - 1]@ == ordered[next - 1],
            next == 0 ==> sorted@.len() == 0,
        decreases all@.len() - next,
    {
        let ghost before = text::texts(sorted@);
        let ghost part = ordered.take(next + 1);
        let ghost item = ordered[next as int];
        proof {
            assert(part =~= ordered.take(next as int).push(item));
            assert(part.to_set() =~= ordered.take(next as int).to_set().insert(item)) by {
                assert forall|t: Seq<char>| #[trigger]
                    part.to_set().contains(t) == ordered.take(next as int).to_set().insert(
                        item,
                    ).contains(t) by {
                    if part.contains(t) {
                        let k = choose|k: int| 0 <= k < part.len() && part[k] == t;
                        if k < next {
                            assert(ordered.take(next as int)[k] == t);
                        }
                    }
                    if ordered.take(next as int).contains(t) {
                        let k = choose|k: int|
                            0 <= k < next && ordered.take(next as int)[k] == t;
                        assert(part[k] == t);
                    }
                    if t == item {
                        assert(part[next as int] == t);
                    }
                }
            }
        }
        let count = sorted.len();
        let repeated = count > 0 && same_text(sorted[count - 1].as_str(), all[next].as_str());
        if !repeated {
            let copy = all[next].clone();
            sorted.push(copy);
            let ghost after = text::texts(sorted@);
            proof {
                assert(after =~= before.push(item));
                assert(after.to_set() =~= before.to_set().insert(item)) by {
                    assert forall|t: Seq<char>| #[trigger]
                        after.to_set().contains(t) == before.to_set().insert(item).contains(t) by {
                        if after.contains(t) {
                            let k = choose|k: int| 0 <= k < after.len() && after[k] == t;
                            if k < before.len() {
                                assert(before[k] == t);
                            }
                        }
                        if before.contains(t) {
                            let k = choose|k: int| 0 <= k < before.len() && before[k] == t;
                            assert(after[k] == t);
                        }
                        if t == item {
                            assert(after[before.len() as int] == t);
                        }
                    }
                }
                if before.len() > 0 {
                    let last = before.last();
                    assert(last == ordered[next - 1]);
                    assert(!text_before(all@[next as int]@, all@[next - 1]@));
                    lemma_text_order(last, item);
                    assert forall|i: int, j: int| 0 <= i < j < after.len() implies text_before(
                        #[trigger] after[i],
                        #[trigger] after[j],
                    ) by {
                        if j == before.len() && i < before.len() - 1 {
                            assert(text_before(before[i], before[before.len() - 1]));
                            lemma_text_transitive(before[i], last, item);
                        }
                    }
                }
            }
        } else {
            proof {
                assert(before.last() == item);
                assert(before.contains(item));
                assert(before.to_set().insert(item) =~= before.to_set());
            }
        }
        next = next + 1;
    }
    proof {
        assert(ordered.take(next as int) =~= ordered);
        let chosen = sorted_distinct(given);
        assert(ascending(text::texts(sorted@)) && text::texts(sorted@).to_set() == given.to_set());
        lemma_ascending_unique(chosen, text::texts(sorted@));
    }
    sorted
}

/// Ascending texts with one more put in its place.
proof fn placed(sorted: Seq<Seq<char>>, item: Seq<char>) -> (more: Seq<Seq<char>>)
    requires
        ascending(sorted),
        !sorted.contains(item),
    ensures
        ascending(more),
        forall|t: Seq<char>| #[trigger] more.contains(t) == (sorted.contains(t) || t == item),
    decreases sorted.len(),
{
    if sorted.len() == 0 {
        let more = seq![item];
        assert forall|t: Seq<char>| #[trigger]
            more.contains(t) == (sorted.contains(t) || t == item) by {
            if t == item {
                assert(more[0] == t);
            }
        }
        more
    } else {
        let (init, last) = (sorted.drop_last(), sorted.last());
        assert(sorted[sorted.len() - 1] == last);
        assert(sorted.contains(last));
        lemma_text_order(last, item);
        if text_before(last, item) {
            let more = sorted.push(item);
            assert forall|i: int, j: int| 0 <= i < j < more.len() implies text_before(
                #[trigger] more[i],
                #[trigger] more[j],
            ) by {
                if j == sorted.len() && i < init.len() {
                    assert(text_before(sorted[i], sorted[sorted.len() - 1]));
                    lemma_text_transitive(sorted[i], last, item);
                }
            }
            assert forall|t: Seq<char>| #[trigger]
                more.contains(t) == (sorted.contains(t) || t == item) by {
                if sorted.contains(t) {
                    let k = choose|k: int| 0 <= k < sorted.len() && sorted[k] == t;
                    assert(more[k] == t);
                }
                if t == item {
                    assert(more[sorted.len() as int] == t);
                }
            }
            more
        } else {
            if init.contains(item) {
                let k = choose|k: int| 0 <= k < init.len() && init[k] == item;
                assert(sorted[k] == item);
            }
            let inner = placed(init, item);
            let more = inner.push(last);
            assert forall|i: int, j: int| 0 <= i < j < more.len() implies text_before(
                #[trigger] more[i],
                #[trigger] more[j],
            ) by {
                if j == inner.len() {
                    assert(inner.contains(inner[i]));
                    if inner[i] != item {
                        let k = choose|k: int| 0 <= k < init.len() && init[k] == inner[i];
                        assert(text_before(sorted[k], sorted[sorted.len() - 1]));
                    }
                }
            }
            assert forall|t: Seq<char>| #[trigger]
                more.contains(t) == (sorted.contains(t) || t == item) by {
                if inner.contains(t) {
                    let k = choose|k: int| 0 <= k < inner.len() && inner[k] == t;
                    assert(more[k] == t);
                }
                assert(more[inner.len() as int] == last);
                if init.contains(t) {
                    let k = choose|k: int| 0 <= k < init.len() && init[k] == t;
                    assert(sorted[k] == t);
                    assert(inner.contains(t));
                }
                if sorted.contains(t) {
                    let k = choose|k: int| 0 <= k < sorted.len() && sorted[k] == t;
                    if k < init.len() {
                        assert(init[k] == t);
                        assert(inner.contains(t));
                    }
                }
                if more.contains(t) {
                    let k = choose|k: int| 0 <= k < more.len() && more[k] == t;
                    if k < inner.len() {
                        assert(inner[k] == t);
                        assert(inner.contains(t));
                    }
                }
                if t == item {
                    assert(inner.contains(t));
                }
            }
            more
        }
    }
}

proof fn put_in_order(texts: Seq<Seq<char>>) -> (sorted: Seq<Seq<char>>)
    ensures
        ascending(sorted),
        sorted.to_set() == texts.to_set(),
    decreases texts.len(),
{
    if texts.len() == 0 {
        texts
    } else {
        let (init, item) = (texts.drop_last(), texts.last());
        let before = put_in_order(init);
        let sorted = if before.contains(item) {
            before
        } else {
            placed(before, item)
        };
        assert forall|t: Seq<char>| #[trigger]
            sorted.to_set().contains(t) == texts.to_set().contains(t) by {
            assert(before.to_set().contains(t) == init.to_set().contains(t));
            assert(before.contains(t) == init.contains(t));
            if init.contains(t) {
                let k = choose|k: int| 0 <= k < init.len() && init[k] == t;
                assert(texts[k] == t);
            }
            assert(texts[texts.len() - 1] == item);
            if texts.contains(t) {
                let k = choose|k: int| 0 <= k < texts.len() && texts[k] == t;
                if k < init.len() {
                    assert(init[k] == t);
                }
            }
            if !before.contains(item) {
                assert(sorted.contains(t) == (before.contains(t) || t == item));
            }
        }
        assert(sorted.to_set() =~= texts.to_set());
        sorted
    }
}

/// Any texts can be put in order.
pub proof fn lemma_sorted_exists(texts: Seq<Seq<char>>)
    ensures
        ascending(sorted_distinct(texts)),
        sorted_distinct(texts).to_set() == texts.to_set(),
        forall|t: Seq<char>| #[trigger] sorted_distinct(texts).contains(t) == texts.contains(t),
{
    let sorted = put_in_order(texts);
    assert(ascending(sorted) && sorted.to_set() == texts.to_set());
    let chosen = sorted_distinct(texts);
    assert forall|t: Seq<char>| #[trigger] chosen.contains(t) == texts.contains(t) by {
        assert(chosen.to_set().contains(t) == chosen.contains(t));
        assert(texts.to_set().contains(t) == texts.contains(t));
    }
}

/// What is sorted depends only on which texts there are.
pub proof fn lemma_same_sorted(a: Seq<Seq<char>>, b: Seq<Seq<char>>)
    requires
        forall|t: Seq<char>| #[trigger] a.contains(t) == b.contains(t),
    ensures
        sorted_distinct(a) == sorted_distinct(b),
{
    lemma_sorted_exists(a);
    lemma_sorted_exists(b);
    let (x, y) = (sorted_distinct(a), sorted_distinct(b));
    assert forall|t: Seq<char>| #[trigger] x.to_set().contains(t) == y.to_set().contains(t) by {
        assert(x.contains(t) == a.contains(t));
        assert(y.contains(t) == b.contains(t));
    }
    assert(x.to_set() =~= y.to_set());
    lemma_ascending_unique(x, y);
}

/// Whether a text comes before another.
pub fn precedes(a: &str, b: &str) -> (before: bool)
    ensures
        before == text_before(a@, b@),
{
    let (x, y) = (a.as_bytes(), b.as_bytes());
    let mut next: usize = 0;
    proof {
        assert(x@.skip(0) =~= x@);
        assert(y@.skip(0) =~= y@);
    }
    while next < x.len() && next < y.len()
        invariant
            x@ == text::bytes_of(a@),
            y@ == text::bytes_of(b@),
            next <= x@.len(),
            next <= y@.len(),
            text_before(a@, b@) == bytes_before(x@.skip(next as int), y@.skip(next as int)),
        decreases x@.len() - next,
    {
        let ghost (p, q) = (x@.skip(next as int), y@.skip(next as int));
        assert(p[0] == x@[next as int] && q[0] == y@[next as int]);
        assert(p.drop_first() =~= x@.skip(next + 1));
        assert(q.drop_first() =~= y@.skip(next + 1));
        if x[next] != y[next] {
            return x[next] < y[next];
        }
        next = next + 1;
    }
    next < y.len()
}

proof fn lemma_encoded_prefix(text: Seq<char>, count: int)
    requires
        0 <= count <= text.len(),
    ensures
        text::bytes_of(text).len() >= text::bytes_of(text.take(count)).len(),
        text::bytes_of(text).take(text::bytes_of(text.take(count)).len() as int)
            == text::bytes_of(text.take(count)),
        count < text.len() ==> text::bytes_of(text).len() > text::bytes_of(text.take(count)).len(),
    decreases text.len(),
{
    let bytes = text::bytes_of(text);
    if count == 0 {
        assert(text::bytes_of(text.take(0)) =~= Seq::<u8>::empty());
        assert(bytes.take(0) =~= Seq::<u8>::empty());
        if text.len() > 0 {
            vstd::utf8::encode_utf8_first_scalar(text);
            assert(bytes.len() > 0);
        }
    } else {
        let (head, rest) = (text.take(count), text.drop_first());
        lemma_encoded_prefix(rest, count - 1);
        assert(head.drop_first() =~= rest.take(count - 1));
        assert(head[0] == text[0]);
        let part = text::bytes_of(head);
        assert(bytes.take(part.len() as int) =~= part);
    }
}

proof fn lemma_prefix_bytes(a: Seq<u8>, b: Seq<u8>)
    requires
        a.len() < b.len(),
        b.take(a.len() as int) == a,
    ensures
        bytes_before(a, b),
    decreases a.len(),
{
    if a.len() > 0 {
        assert(a[0] == b.take(a.len() as int)[0]);
        let (x, y) = (a.drop_first(), b.drop_first());
        assert(y.take(x.len() as int) =~= b.take(a.len() as int).drop_first());
        lemma_prefix_bytes(x, y);
    }
}

/// A text that begins another comes before it.
pub proof fn lemma_beginning_comes_first(text: Seq<char>, count: int)
    requires
        0 <= count < text.len(),
    ensures
        text_before(text.take(count), text),
{
    lemma_encoded_prefix(text, count);
    lemma_prefix_bytes(text::bytes_of(text.take(count)), text::bytes_of(text));
}

/// Whether a text is among sorted ones.
pub fn found_in(sorted: &Vec<String>, wanted: &str) -> (found: bool)
    requires
        ascending(text::texts(sorted@)),
    ensures
        found == text::texts(sorted@).contains(wanted@),
{
    let ghost list = text::texts(sorted@);
    let mut low: usize = 0;
    let mut high: usize = sorted.len();
    while low < high
        invariant
            low <= high <= sorted@.len(),
            list == text::texts(sorted@),
            ascending(list),
            forall|i: int| 0 <= i < low ==> #[trigger] list[i] != wanted@,
            forall|i: int| high <= i < list.len() ==> #[trigger] list[i] != wanted@,
        decreases high - low,
    {
        let middle = low + (high - low) / 2;
        let at = sorted[middle].as_str();
        assert(list[middle as int] == at@);
        if same_text(at, wanted) {
            return true;
        }
        if precedes(at, wanted) {
            proof {
                assert forall|i: int|
                    0 <= i < middle + 1 implies #[trigger] list[i] != wanted@ by {
                    if i < middle && list[i] == wanted@ {
                        assert(text_before(list[i], list[middle as int]));
                        lemma_text_order(at@, wanted@);
                    }
                }
            }
            low = middle + 1;
        } else {
            proof {
                assert forall|i: int|
                    middle <= i < list.len() implies #[trigger] list[i] != wanted@ by {
                    if i > middle && list[i] == wanted@ {
                        assert(text_before(list[middle as int], list[i]));
                    }
                }
            }
            high = middle;
        }
    }
    false
}

} // verus!
