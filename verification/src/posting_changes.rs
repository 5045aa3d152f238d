//! Changed text in postings of its grams: only grams that come or go are touched, so that
//! postings that stay the same stay shared.
use crate::posting_map;
use crate::posting_map::PostingMap;
use crate::text;
use crate::text::{find_bytes, same_text};
use vstd::prelude::*;

verus! {

/// A key is a gram of a text: one of its runs of so many bytes.
pub open spec fn is_gram(key: Seq<u8>, bytes: Seq<u8>, width: int) -> bool {
    key.len() == width && text::occurs(bytes, key)
}

/// A key is a gram that begins before a place.
pub open spec fn gram_before(key: Seq<u8>, bytes: Seq<u8>, width: int, end: int) -> bool {
    exists|at: int|
        0 <= at < end && at + width <= bytes.len() && #[trigger] bytes.subrange(at, at + width)
            == key
}

/// A gram goes with a change of text.
pub open spec fn goes(key: Seq<u8>, before: Seq<u8>, after: Seq<u8>, width: int) -> bool {
    is_gram(key, before, width) && !is_gram(key, after, width)
}

/// Postings without a slot for some keys.
pub open spec fn dropped(
    postings: Map<Seq<u8>, Set<u32>>,
    slot: u32,
    gone: spec_fn(Seq<u8>) -> bool,
) -> Map<Seq<u8>, Set<u32>> {
    Map::new(
        |key: Seq<u8>|
            postings.dom().contains(key) && !(gone(key) && postings[key].remove(slot)
                == Set::<u32>::empty()),
        |key: Seq<u8>|
            if gone(key) {
                postings[key].remove(slot)
            } else {
                postings[key]
            },
    )
}

/// Postings with a slot for some keys.
pub open spec fn added(
    postings: Map<Seq<u8>, Set<u32>>,
    slot: u32,
    come: spec_fn(Seq<u8>) -> bool,
) -> Map<Seq<u8>, Set<u32>> {
    Map::new(
        |key: Seq<u8>| postings.dom().contains(key) || come(key),
        |key: Seq<u8>|
            if come(key) {
                posting_map::slots_of(postings, key).insert(slot)
            } else {
                postings[key]
            },
    )
}

/// Postings after the text of a slot changed.
pub open spec fn changed(
    postings: Map<Seq<u8>, Set<u32>>,
    slot: u32,
    before: Seq<u8>,
    after: Seq<u8>,
    width: int,
) -> Map<Seq<u8>, Set<u32>> {
    added(
        dropped(postings, slot, |key: Seq<u8>| goes(key, before, after, width)),
        slot,
        |key: Seq<u8>| goes(key, after, before, width),
    )
}

proof fn lemma_gram(key: Seq<u8>, bytes: Seq<u8>, width: int)
    requires
        width > 0,
    ensures
        is_gram(key, bytes, width) == gram_before(key, bytes, width, bytes.len() as int),
{
    if is_gram(key, bytes, width) {
        let at = choose|at: int| text::occurs_at(bytes, key, at);
        assert(bytes.subrange(at, at + width) =~= key);
    }
    if gram_before(key, bytes, width, bytes.len() as int) {
        let at = choose|at: int|
            0 <= at < bytes.len() && at + width <= bytes.len() && #[trigger] bytes.subrange(
                at,
                at + width,
            ) == key;
        assert(text::occurs_at(bytes, key, at));
    }
}

proof fn lemma_next_gram(key: Seq<u8>, bytes: Seq<u8>, width: int, at: int)
    requires
        width > 0,
        0 <= at,
        at + width <= bytes.len(),
    ensures
        gram_before(key, bytes, width, at + 1) == (gram_before(key, bytes, width, at) || key
            == bytes.subrange(at, at + width)),
{
    if gram_before(key, bytes, width, at) {
        let k = choose|k: int|
            0 <= k < at && k + width <= bytes.len() && #[trigger] bytes.subrange(k, k + width)
                == key;
        assert(0 <= k < at + 1 && bytes.subrange(k, k + width) == key);
    }
    if key == bytes.subrange(at, at + width) {
        assert(0 <= at < at + 1 && bytes.subrange(at, at + width) == key);
    }
}

/// The grams of a text that another does not have.
pub open spec fn some_go(
    key: Seq<u8>,
    before: Seq<u8>,
    after: Seq<u8>,
    width: int,
    end: int,
) -> bool {
    gram_before(key, before, width, end) && !is_gram(key, after, width)
}

/// Change the postings of grams of a width.
pub struct GramChanges {
    pub width: usize,
}

impl GramChanges {
    fn drop_grams(&self, postings: &mut PostingMap, slot: u32, before: &[u8], after: &[u8])
        requires
            self.width > 0,
            old(postings).wf(),
        ensures
            final(postings).wf(),
            final(postings).kind == old(postings).kind,
            final(postings)@ == dropped(
                old(postings)@,
                slot,
                |key: Seq<u8>| goes(key, before@, after@, self.width as int),
            ),
    {
        let width = self.width;
        let ghost w = width as int;
        let ghost first = postings@;
        let mut at: usize = 0;
        assert(postings@ =~= dropped(
            first,
            slot,
            |key: Seq<u8>| some_go(key, before@, after@, w, 0),
        ));
        while before.len() >= width && at <= before.len() - width
            invariant
                width == self.width,
                w == width,
                w > 0,
                at <= before@.len(),
                before@.len() >= w ==> at <= before@.len() - w + 1,
                before@.len() < w ==> at == 0,
                postings.wf(),
                postings.kind == old(postings).kind,
                postings@ == dropped(
                    first,
                    slot,
                    |key: Seq<u8>| some_go(key, before@, after@, w, at as int),
                ),
            decreases before@.len() - at,
        {
            let gram = vstd::slice::slice_subrange(before, at, at + width);
            let ghost seen = postings@;
            let ghost item = before@.subrange(at as int, at + w);
            assert(gram@ == item);
            let stays = find_bytes(after, gram).is_some();
            assert(stays == is_gram(item, after@, w));
            if !stays {
                postings.remove_slot(gram, slot);
            }
            proof {
                let old_gone = |key: Seq<u8>| some_go(key, before@, after@, w, at as int);
                let new_gone = |key: Seq<u8>| some_go(key, before@, after@, w, at + 1);
                assert forall|key: Seq<u8>| #[trigger] new_gone(key) == (old_gone(key) || (key
                    == item && !stays)) by {
                    lemma_next_gram(key, before@, w, at as int);
                }
                let want = dropped(first, slot, new_gone);
                assert forall|key: Seq<u8>| #[trigger] postings@.dom().contains(key)
                    == want.dom().contains(key) by {
                    assert(new_gone(key) == (old_gone(key) || (key == item && !stays)));
                    if key == item && !stays && seen.dom().contains(key) {
                        assert(seen[key].remove(slot) =~= first[key].remove(slot));
                    }
                }
                assert forall|key: Seq<u8>| #[trigger]
                    postings@.dom().contains(key) implies postings@[key] == want[key] by {
                    assert(new_gone(key) == (old_gone(key) || (key == item && !stays)));
                    if key == item && !stays {
                        assert(seen[key].remove(slot) =~= first[key].remove(slot));
                    }
                }
                assert(postings@ =~= want);
            }
            at = at + 1;
        }
        proof {
            let part = |key: Seq<u8>| some_go(key, before@, after@, w, at as int);
            let all = |key: Seq<u8>| goes(key, before@, after@, w);
            assert forall|key: Seq<u8>| #[trigger] part(key) == all(key) by {
                lemma_gram(key, before@, w);
                if gram_before(key, before@, w, before@.len() as int) {
                    let k = choose|k: int|
                        0 <= k < before@.len() && k + w <= before@.len()
                            && #[trigger] before@.subrange(k, k + w) == key;
                    assert(0 <= k < at && before@.subrange(k, k + w) == key);
                }
                if gram_before(key, before@, w, at as int) {
                    let k = choose|k: int|
                        0 <= k < at && k + w <= before@.len() && #[trigger] before@.subrange(
                            k,
                            k + w,
                        ) == key;
                    assert(0 <= k < before@.len() && before@.subrange(k, k + w) == key);
                }
            }
            assert(dropped(first, slot, part) =~= dropped(first, slot, all));
        }
    }

    fn add_grams(&self, postings: &mut PostingMap, slot: u32, after: &[u8], before: &[u8])
        requires
            self.width > 0,
            old(postings).wf(),
        ensures
            final(postings).wf(),
            final(postings).kind == old(postings).kind,
            final(postings)@ == added(
                old(postings)@,
                slot,
                |key: Seq<u8>| goes(key, after@, before@, self.width as int),
            ),
    {
        let width = self.width;
        let ghost w = width as int;
        let ghost first = postings@;
        let mut at: usize = 0;
        assert(postings@ =~= added(
            first,
            slot,
            |key: Seq<u8>| some_go(key, after@, before@, w, 0),
        ));
        while after.len() >= width && at <= after.len() - width
            invariant
                width == self.width,
                w == width,
                w > 0,
                at <= after@.len(),
                after@.len() >= w ==> at <= after@.len() - w + 1,
                after@.len() < w ==> at == 0,
                postings.wf(),
                postings.kind == old(postings).kind,
                postings@ == added(
                    first,
                    slot,
                    |key: Seq<u8>| some_go(key, after@, before@, w, at as int),
                ),
            decreases after@.len() - at,
        {
            let gram = vstd::slice::slice_subrange(after, at, at + width);
            let ghost seen = postings@;
            let ghost item = after@.subrange(at as int, at + w);
            assert(gram@ == item);
            let stays = find_bytes(before, gram).is_some();
            assert(stays == is_gram(item, before@, w));
            if !stays {
                postings.add_slot(gram, slot);
            }
            proof {
                let old_come = |key: Seq<u8>| some_go(key, after@, before@, w, at as int);
                let new_come = |key: Seq<u8>| some_go(key, after@, before@, w, at + 1);
                assert forall|key: Seq<u8>| #[trigger] new_come(key) == (old_come(key) || (key
                    == item && !stays)) by {
                    lemma_next_gram(key, after@, w, at as int);
                }
                let want = added(first, slot, new_come);
                assert forall|key: Seq<u8>| #[trigger] postings@.dom().contains(key)
                    == want.dom().contains(key) by {
                    assert(new_come(key) == (old_come(key) || (key == item && !stays)));
                }
                assert forall|key: Seq<u8>| #[trigger]
                    postings@.dom().contains(key) implies postings@[key] == want[key] by {
                    assert(new_come(key) == (old_come(key) || (key == item && !stays)));
                    if key == item && !stays {
                        assert(posting_map::slots_of(seen, key).insert(slot)
                            =~= posting_map::slots_of(first, key).insert(slot));
                    }
                }
                assert(postings@ =~= want);
            }
            at = at + 1;
        }
        proof {
            let part = |key: Seq<u8>| some_go(key, after@, before@, w, at as int);
            let all = |key: Seq<u8>| goes(key, after@, before@, w);
            assert forall|key: Seq<u8>| #[trigger] part(key) == all(key) by {
                lemma_gram(key, after@, w);
                if gram_before(key, after@, w, after@.len() as int) {
                    let k = choose|k: int|
                        0 <= k < after@.len() && k + w <= after@.len()
                            && #[trigger] after@.subrange(k, k + w) == key;
                    assert(0 <= k < at && after@.subrange(k, k + w) == key);
                }
                if gram_before(key, after@, w, at as int) {
                    let k = choose|k: int|
                        0 <= k < at && k + w <= after@.len() && #[trigger] after@.subrange(
                            k,
                            k + w,
                        ) == key;
                    assert(0 <= k < after@.len() && after@.subrange(k, k + w) == key);
                }
            }
            assert(added(first, slot, part) =~= added(first, slot, all));
        }
    }

    /// The text of a slot changed: it leaves the postings of grams that went and joins those of
    /// grams that came.
    pub fn apply(&self, postings: &mut PostingMap, slot: u32, previous: &str, next: &str)
        requires
            self.width > 0,
            old(postings).wf(),
        ensures
            final(postings).wf(),
            final(postings).kind == old(postings).kind,
            final(postings)@ == changed(
                old(postings)@,
                slot,
                text::bytes_of(previous@),
                text::bytes_of(next@),
                self.width as int,
            ),
    {
        let ghost w = self.width as int;
        let ghost (a, b) = (text::bytes_of(previous@), text::bytes_of(next@));
        let ghost first = postings@;
        if same_text(previous, next) {
            proof {
                let gone = |key: Seq<u8>| goes(key, a, b, w);
                assert(dropped(first, slot, gone) =~= first);
                assert(added(first, slot, |key: Seq<u8>| goes(key, b, a, w)) =~= first);
            }
            return;
        }
        let before = previous.as_bytes();
        let after = next.as_bytes();
        self.drop_grams(postings, slot, before, after);
        self.add_grams(postings, slot, after, before);
    }
}

/// A slot is in the postings of exactly the grams of a text.
pub open spec fn posted(
    postings: Map<Seq<u8>, Set<u32>>,
    slot: u32,
    bytes: Seq<u8>,
    width: int,
) -> bool {
    forall|key: Seq<u8>|
        key.len() == width ==> #[trigger] posting_map::slots_of(postings, key).contains(slot)
            == is_gram(key, bytes, width)
}

/// After a change a slot is in the postings of exactly the grams of its new text, and no other
/// slot is affected.
pub proof fn law_a_slot_is_posted_under_its_own_grams(
    postings: Map<Seq<u8>, Set<u32>>,
    slot: u32,
    before: Seq<u8>,
    after: Seq<u8>,
    width: int,
    other: u32,
    key: Seq<u8>,
)
    requires
        posted(postings, slot, before, width),
        other != slot,
    ensures
        posted(changed(postings, slot, before, after, width), slot, after, width),
        posting_map::slots_of(changed(postings, slot, before, after, width), key).contains(other)
            == posting_map::slots_of(postings, key).contains(other),
{
    let gone = |k: Seq<u8>| goes(k, before, after, width);
    let come = |k: Seq<u8>| goes(k, after, before, width);
    let middle = dropped(postings, slot, gone);
    let done = changed(postings, slot, before, after, width);
    assert forall|k: Seq<u8>| k.len() == width implies #[trigger] posting_map::slots_of(
        done,
        k,
    ).contains(slot) == is_gram(k, after, width) by {
        assert(posting_map::slots_of(postings, k).contains(slot) == is_gram(k, before, width));
        assert(gone(k) == goes(k, before, after, width));
        assert(come(k) == goes(k, after, before, width));
    }
    assert(gone(key) == goes(key, before, after, width));
    assert(come(key) == goes(key, after, before, width));
    if postings.dom().contains(key) && gone(key) && postings[key].remove(slot)
        == Set::<u32>::empty() {
        assert(!postings[key].remove(slot).contains(other));
    }
}

} // verus!
