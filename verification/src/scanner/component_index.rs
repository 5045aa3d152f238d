//! Places found by components: a list sorted by components, so that a search takes as many
//! comparisons as the length of the list has bits.
use crate::text;
use crate::text::same_text;
use crate::text_order;
use crate::text_order::precedes;
use vstd::prelude::*;

verus! {

/// Components come before others: by the first that differ, or because they end first.
pub open spec fn parts_before(a: Seq<Seq<char>>, b: Seq<Seq<char>>) -> bool
    decreases a.len(),
{
    if b.len() == 0 {
        false
    } else if a.len() == 0 {
        true
    } else if a[0] == b[0] {
        parts_before(a.drop_first(), b.drop_first())
    } else {
        text_order::text_before(a[0], b[0])
    }
}

/// The order of components is strict and total.
proof fn lemma_parts_order(a: Seq<Seq<char>>, b: Seq<Seq<char>>)
    ensures
        !parts_before(a, a),
        !(parts_before(a, b) && parts_before(b, a)),
        a == b || parts_before(a, b) || parts_before(b, a),
    decreases a.len() + b.len(),
{
    if a.len() > 0 {
        lemma_parts_order(a.drop_first(), if b.len() > 0 {
            b.drop_first()
        } else {
            b
        });
    }
    if a.len() > 0 && b.len() > 0 {
        text_order::lemma_text_order(a[0], b[0]);
        if a[0] == b[0] && a.drop_first() == b.drop_first() {
            assert(a =~= seq![a[0]] + a.drop_first());
            assert(b =~= seq![b[0]] + b.drop_first());
        }
    }
    if a.len() == 0 && b.len() == 0 {
        assert(a =~= b);
    }
}

proof fn lemma_parts_transitive(a: Seq<Seq<char>>, b: Seq<Seq<char>>, c: Seq<Seq<char>>)
    requires
        parts_before(a, b),
        parts_before(b, c),
    ensures
        parts_before(a, c),
    decreases a.len(),
{
    if a.len() > 0 {
        if a[0] == b[0] && b[0] == c[0] {
            lemma_parts_transitive(a.drop_first(), b.drop_first(), c.drop_first());
        } else if a[0] != b[0] && b[0] != c[0] {
            text_order::lemma_text_transitive(a[0], b[0], c[0]);
            text_order::lemma_text_order(a[0], b[0]);
        }
    }
}

/// Whether components come before the first `count` of others.
fn before(a: &Vec<String>, b: &Vec<String>, count: usize) -> (yes: bool)
    requires
        count <= b@.len(),
    ensures
        yes == parts_before(text::texts(a@), text::texts(b@).take(count as int)),
{
    let ghost (x, y) = (text::texts(a@), text::texts(b@).take(count as int));
    let mut next: usize = 0;
    proof {
        assert(x.skip(0) =~= x);
        assert(y.skip(0) =~= y);
    }
    while next < a.len() && next < count
        invariant
            next <= a@.len(),
            next <= count <= b@.len(),
            x == text::texts(a@),
            y == text::texts(b@).take(count as int),
            parts_before(x, y) == parts_before(x.skip(next as int), y.skip(next as int)),
        decreases a@.len() - next,
    {
        let ghost (p, q) = (x.skip(next as int), y.skip(next as int));
        assert(p[0] == a@[next as int]@ && q[0] == b@[next as int]@);
        assert(p.drop_first() =~= x.skip(next + 1));
        assert(q.drop_first() =~= y.skip(next + 1));
        if !same_text(a[next].as_str(), b[next].as_str()) {
            return precedes(a[next].as_str(), b[next].as_str());
        }
        next = next + 1;
    }
    next < count
}

/// Whether components are the first `count` of others.
fn same_parts(a: &Vec<String>, b: &Vec<String>, count: usize) -> (same: bool)
    requires
        count <= b@.len(),
    ensures
        same == (text::texts(a@) == text::texts(b@).take(count as int)),
{
    let ghost (x, y) = (text::texts(a@), text::texts(b@).take(count as int));
    if a.len() != count {
        assert(x.len() != y.len());
        return false;
    }
    let mut next: usize = 0;
    while next < count
        invariant
            next <= count <= b@.len(),
            count == a@.len(),
            x == text::texts(a@),
            y == text::texts(b@).take(count as int),
            forall|i: int| 0 <= i < next ==> x[i] == y[i],
        decreases count - next,
    {
        assert(x[next as int] == a@[next as int]@ && y[next as int] == b@[next as int]@);
        if !same_text(a[next].as_str(), b[next].as_str()) {
            return false;
        }
        next = next + 1;
    }
    assert(x =~= y);
    true
}

struct Key {
    parts: Vec<String>,
    place: usize,
}

/// The places of paths, by their components.
pub struct ComponentIndex {
    keys: Vec<Key>,
}

impl View for ComponentIndex {
    type V = Map<Seq<Seq<char>>, usize>;

    closed spec fn view(&self) -> Map<Seq<Seq<char>>, usize> {
        Map::new(
            |parts: Seq<Seq<char>>| exists|i: int| self.holds(parts, i),
            |parts: Seq<Seq<char>>| self.keys@[choose|i: int| self.holds(parts, i)].place,
        )
    }
}

impl ComponentIndex {
    spec fn parts_at(&self, i: int) -> Seq<Seq<char>> {
        text::texts(self.keys@[i].parts@)
    }

    spec fn holds(&self, parts: Seq<Seq<char>>, i: int) -> bool {
        0 <= i < self.keys@.len() && self.parts_at(i) == parts
    }

    /// The keys are sorted, and no two are the same.
    pub closed spec fn well_formed(&self) -> bool {
        forall|i: int, j: int|
            0 <= i < j < self.keys@.len() ==> parts_before(
                #[trigger] self.parts_at(i),
                #[trigger] self.parts_at(j),
            )
    }

    proof fn lemma_held(&self, i: int)
        requires
            self.well_formed(),
            0 <= i < self.keys@.len(),
        ensures
            self@.contains_key(self.parts_at(i)),
            self@[self.parts_at(i)] == self.keys@[i].place,
    {
        let parts = self.parts_at(i);
        assert(self.holds(parts, i));
        let j = choose|j: int| self.holds(parts, j);
        lemma_parts_order(parts, parts);
        if i < j {
            assert(parts_before(self.parts_at(i), self.parts_at(j)));
        }
        if j < i {
            assert(parts_before(self.parts_at(j), self.parts_at(i)));
        }
    }

    pub fn empty() -> (index: Self)
        ensures
            index.well_formed(),
            index@ == Map::<Seq<Seq<char>>, usize>::empty(),
    {
        let index = ComponentIndex { keys: Vec::new() };
        assert(index@ =~= Map::<Seq<Seq<char>>, usize>::empty());
        index
    }

    /// How many keys come before the first `count` of some components.
    fn place_for(&self, parts: &Vec<String>, count: usize) -> (at: usize)
        requires
            self.well_formed(),
            count <= parts@.len(),
        ensures
            at <= self.keys@.len(),
            forall|i: int|
                0 <= i < self.keys@.len() ==> (i < at) == parts_before(
                    #[trigger] self.parts_at(i),
                    text::texts(parts@).take(count as int),
                ),
    {
        let ghost wanted = text::texts(parts@).take(count as int);
        let mut low: usize = 0;
        let mut high: usize = self.keys.len();
        while low < high
            invariant
                self.well_formed(),
                count <= parts@.len(),
                wanted == text::texts(parts@).take(count as int),
                low <= high <= self.keys@.len(),
                forall|i: int| 0 <= i < low ==> parts_before(#[trigger] self.parts_at(i), wanted),
                forall|i: int|
                    high <= i < self.keys@.len() ==> !parts_before(
                        #[trigger] self.parts_at(i),
                        wanted,
                    ),
            decreases high - low,
        {
            let middle = low + (high - low) / 2;
            let ghost found = self.parts_at(middle as int);
            if before(&self.keys[middle].parts, parts, count) {
                proof {
                    assert forall|i: int| 0 <= i < middle + 1 implies parts_before(
                        #[trigger] self.parts_at(i),
                        wanted,
                    ) by {
                        if i < middle {
                            assert(parts_before(self.parts_at(i), found));
                            lemma_parts_transitive(self.parts_at(i), found, wanted);
                        }
                    }
                }
                low = middle + 1;
            } else {
                proof {
                    assert forall|i: int| middle <= i < self.keys@.len() implies !parts_before(
                        #[trigger] self.parts_at(i),
                        wanted,
                    ) by {
                        if i > middle && parts_before(self.parts_at(i), wanted) {
                            assert(parts_before(found, self.parts_at(i)));
                            lemma_parts_transitive(found, self.parts_at(i), wanted);
                        }
                    }
                }
                high = middle;
            }
        }
        low
    }

    /// The place of the path that has the first `count` of some components.
    pub fn find(&self, parts: &Vec<String>, count: usize) -> (place: Option<usize>)
        requires
            self.well_formed(),
            count <= parts@.len(),
        ensures
            place == ({
                let wanted = text::texts(parts@).take(count as int);
                if self@.contains_key(wanted) {
                    Some(self@[wanted])
                } else {
                    None
                }
            }),
    {
        let ghost wanted = text::texts(parts@).take(count as int);
        let at = self.place_for(parts, count);
        if at < self.keys.len() && same_parts(&self.keys[at].parts, parts, count) {
            proof {
                self.lemma_held(at as int);
            }
            return Some(self.keys[at].place);
        }
        proof {
            if self@.contains_key(wanted) {
                let i = choose|i: int| self.holds(wanted, i);
                lemma_parts_order(wanted, wanted);
                assert(self.parts_at(i) == wanted);
                if i > at {
                    assert(parts_before(self.parts_at(at as int), self.parts_at(i)));
                }
            }
        }
        None
    }

    /// Add the place of a path by its components.
    pub fn insert(&mut self, parts: Vec<String>, place: usize)
        requires
            old(self).well_formed(),
            !old(self)@.contains_key(text::texts(parts@)),
        ensures
            final(self).well_formed(),
            final(self)@ == old(self)@.insert(text::texts(parts@), place),
    {
        let ghost wanted = text::texts(parts@);
        let at = self.place_for(&parts, parts.len());
        assert(wanted.take(parts@.len() as int) =~= wanted);
        let ghost was = *self;
        self.keys.insert(at, Key { parts, place });
        proof {
            assert forall|i: int| 0 <= i < self.keys@.len() implies #[trigger] self.parts_at(i)
                == (if i < at {
                was.parts_at(i)
            } else if i == at {
                wanted
            } else {
                was.parts_at(i - 1)
            }) by {}
            assert forall|i: int, j: int| 0 <= i < j < self.keys@.len() implies parts_before(
                #[trigger] self.parts_at(i),
                #[trigger] self.parts_at(j),
            ) by {
                if i == at {
                    let other = was.parts_at(j - 1);
                    assert(!parts_before(other, wanted));
                    lemma_parts_order(other, wanted);
                    assert(was.holds(other, j - 1));
                }
            }
            assert forall|k: Seq<Seq<char>>| #[trigger] self@.contains_key(k) == was@.insert(
                wanted,
                place,
            ).contains_key(k) by {
                if self@.contains_key(k) {
                    let i = choose|i: int| self.holds(k, i);
                    if i < at {
                        assert(was.holds(k, i));
                    } else if i > at {
                        assert(was.holds(k, i - 1));
                    }
                }
                if was@.contains_key(k) {
                    let i = choose|i: int| was.holds(k, i);
                    if i < at {
                        assert(self.holds(k, i));
                    } else {
                        assert(self.holds(k, i + 1));
                    }
                }
                assert(self.holds(wanted, at as int));
            }
            assert forall|k: Seq<Seq<char>>| self@.contains_key(k) implies #[trigger] self@[k]
                == was@.insert(wanted, place)[k] by {
                let i = choose|i: int| self.holds(k, i);
                self.lemma_held(i);
                if i < at {
                    was.lemma_held(i);
                } else if i > at {
                    was.lemma_held(i - 1);
                }
            }
            assert(self@ =~= was@.insert(wanted, place));
        }
    }
}

} // verus!
