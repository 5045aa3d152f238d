//! Whether a stored order holds every live slot once. Each live slot is consumed once; as many
//! as there are then leave none out.
use crate::bitmaps;
use crate::bitmaps::{copy_bitmap, slot_list};
use roaring::RoaringBitmap;
use vstd::prelude::*;

verus! {

/// The slots that were not consumed yet: one bit for each, where that takes less room, or a
/// compressed set.
pub enum RemainingSlots {
    Dense(Vec<u64>),
    Sparse(RoaringBitmap),
}

/// A bit of a word.
pub open spec fn bit_of(word: u64, bit: u32) -> bool {
    word & (1u64 << bit) != 0
}

/// The slots whose bits are set.
pub open spec fn slots_of_words(words: Seq<u64>) -> Set<u32> {
    Set::new(|slot: u32| slot / 64 < words.len() && bit_of(words[slot as int / 64], slot % 64))
}

impl View for RemainingSlots {
    type V = Set<u32>;

    open spec fn view(&self) -> Set<u32> {
        match *self {
            RemainingSlots::Dense(words) => slots_of_words(words@),
            RemainingSlots::Sparse(slots) => bitmaps::slots_in(slots),
        }
    }
}

proof fn lemma_set_bit(word: u64, bit: u32, other: u32)
    requires
        bit < 64,
        other < 64,
    ensures
        bit_of(word | (1u64 << bit), other) == (bit_of(word, other) || other == bit),
{
    assert(((word | (1u64 << bit)) & (1u64 << other) != 0) == ((word & (1u64 << other) != 0)
        || other == bit)) by (bit_vector)
        requires
            bit < 64,
            other < 64,
    ;
}

proof fn lemma_clear_bit(word: u64, bit: u32, other: u32)
    requires
        bit < 64,
        other < 64,
    ensures
        bit_of(word & !(1u64 << bit), other) == (bit_of(word, other) && other != bit),
{
    assert(((word & !(1u64 << bit)) & (1u64 << other) != 0) == ((word & (1u64 << other) != 0)
        && other != bit)) by (bit_vector)
        requires
            bit < 64,
            other < 64,
    ;
}

proof fn lemma_no_bits(bit: u32)
    ensures
        !bit_of(0u64, bit),
{
    assert(0u64 & (1u64 << bit) == 0) by (bit_vector);
}

proof fn lemma_words_changed(before: Seq<u64>, after: Seq<u64>, slot: u32, present: bool)
    requires
        slot / 64 < before.len(),
        after == before.update(
            slot as int / 64,
            if present {
                before[slot as int / 64] | (1u64 << (slot % 64))
            } else {
                before[slot as int / 64] & !(1u64 << (slot % 64))
            },
        ),
    ensures
        slots_of_words(after) == (if present {
            slots_of_words(before).insert(slot)
        } else {
            slots_of_words(before).remove(slot)
        }),
{
    let want = if present {
        slots_of_words(before).insert(slot)
    } else {
        slots_of_words(before).remove(slot)
    };
    assert forall|t: u32| #[trigger] slots_of_words(after).contains(t) == want.contains(t) by {
        if t / 64 < before.len() && t as int / 64 == slot as int / 64 {
            lemma_set_bit(before[slot as int / 64], slot % 64, t % 64);
            lemma_clear_bit(before[slot as int / 64], slot % 64, t % 64);
            assert((t % 64 == slot % 64) == (t == slot));
        }
    }
    assert(slots_of_words(after) =~= want);
}

impl RemainingSlots {
    /// All live slots remain. Far-apart slots do not take a bit for every slot between them.
    pub fn new(live: &RoaringBitmap) -> (remaining: Self)
        ensures
            remaining@ == bitmaps::slots_in(*live),
    {
        let list = slot_list(live);
        let count = list.len();
        if count == 0 {
            let remaining = RemainingSlots::Sparse(copy_bitmap(live));
            return remaining;
        }
        let last = list[count - 1];
        let length: u64 = last as u64 / 64 + 1;
        if length * 4 > count as u64 {
            return RemainingSlots::Sparse(copy_bitmap(live));
        }
        let mut words: Vec<u64> = Vec::new();
        while (words.len() as u64) < length
            invariant
                words@.len() <= length,
                forall|i: int| 0 <= i < words@.len() ==> #[trigger] words@[i] == 0,
            decreases length - words@.len(),
        {
            words.push(0);
        }
        let mut next: usize = 0;
        proof {
            assert forall|t: u32| !#[trigger] slots_of_words(words@).contains(t) by {
                lemma_no_bits(t % 64);
            }
            assert(slots_of_words(words@) =~= list@.take(0).to_set());
        }
        while next < list.len()
            invariant
                next <= list@.len(),
                words@.len() == length,
                length == last as int / 64 + 1,
                forall|i: int| 0 <= i < list@.len() ==> (#[trigger] list@[i]) <= last,
                slots_of_words(words@) == list@.take(next as int).to_set(),
            decreases list@.len() - next,
        {
            let slot = list[next];
            let place: usize = (slot / 64) as usize;
            let bit: u32 = slot % 64;
            let word = words[place];
            let ghost before = words@;
            words.set(place, word | (1u64 << bit));
            proof {
                lemma_words_changed(before, words@, slot, true);
                let (done, part) = (list@.take(next as int), list@.take(next + 1));
                assert(part =~= done.push(slot));
                assert forall|t: u32| #[trigger] part.to_set().contains(t)
                    == done.to_set().insert(slot).contains(t) by {
                    if part.contains(t) {
                        let k = choose|k: int| 0 <= k < part.len() && part[k] == t;
                        if k < done.len() {
                            assert(done[k] == t);
                        }
                    }
                    if done.contains(t) {
                        let k = choose|k: int| 0 <= k < done.len() && done[k] == t;
                        assert(part[k] == t);
                    }
                    assert(part[next as int] == slot);
                }
                assert(part.to_set() =~= done.to_set().insert(slot));
            }
            next = next + 1;
        }
        assert(list@.take(next as int) =~= list@);
        RemainingSlots::Dense(words)
    }

    /// Consume a slot. A slot that is not live and one that was consumed before are refused
    /// alike.
    pub fn consume(&mut self, slot: u32) -> (present: bool)
        ensures
            present == old(self)@.contains(slot),
            final(self)@ == old(self)@.remove(slot),
    {
        let ghost before = self@;
        match self {
            RemainingSlots::Dense(words) => {
                let place: usize = (slot / 64) as usize;
                if place >= words.len() {
                    assert(before.remove(slot) =~= before);
                    return false;
                }
                let bit: u32 = slot % 64;
                let word = words[place];
                let ghost earlier = words@;
                words.set(place, word & !(1u64 << bit));
                proof {
                    lemma_words_changed(earlier, words@, slot, false);
                }
                word & (1u64 << bit) != 0
            },
            RemainingSlots::Sparse(slots) => slots.remove(slot),
        }
    }
}

/// Whether an order holds every live slot once.
pub fn is_order_of(order: &[u32], live: &RoaringBitmap) -> (yes: bool)
    ensures
        yes == (order@.no_duplicates() && order@.to_set() == bitmaps::slots_in(*live)),
{
    let ghost all = bitmaps::slots_in(*live);
    let mut remaining = RemainingSlots::new(live);
    let mut next: usize = 0;
    assert(order@.take(0).to_set() =~= Set::<u32>::empty());
    assert(remaining@ =~= all.difference(order@.take(0).to_set()));
    while next < order.len()
        invariant
            next <= order@.len(),
            all == bitmaps::slots_in(*live),
            remaining@ == all.difference(order@.take(next as int).to_set()),
            order@.take(next as int).no_duplicates(),
            order@.take(next as int).to_set().subset_of(all),
        decreases order@.len() - next,
    {
        let slot = order[next];
        let ghost (done, part) = (order@.take(next as int), order@.take(next + 1));
        proof {
            assert(part =~= done.push(slot));
            assert(part[next as int] == slot);
            assert forall|t: u32| #[trigger] part.to_set().contains(t)
                == done.to_set().insert(slot).contains(t) by {
                if part.contains(t) {
                    let k = choose|k: int| 0 <= k < part.len() && part[k] == t;
                    if k < done.len() {
                        assert(done[k] == t);
                    }
                }
                if done.contains(t) {
                    let k = choose|k: int| 0 <= k < done.len() && done[k] == t;
                    assert(part[k] == t);
                }
            }
            assert(part.to_set() =~= done.to_set().insert(slot));
        }
        if !remaining.consume(slot) {
            proof {
                if order@.no_duplicates() && order@.to_set() == all {
                    assert(order@.to_set().contains(slot));
                    assert(done.to_set().contains(slot));
                    let k = choose|k: int| 0 <= k < done.len() && done[k] == slot;
                    assert(order@[k] == order@[next as int]);
                }
            }
            return false;
        }
        proof {
            assert(remaining@ =~= all.difference(part.to_set()));
            assert forall|i: int, j: int|
                0 <= i < part.len() && 0 <= j < part.len() && i != j implies part[i] != part[j] by {
                if i < done.len() && j < done.len() {
                    assert(done[i] != done[j]);
                } else if i < done.len() {
                    assert(done.contains(done[i]));
                } else {
                    assert(done.contains(done[j]));
                }
            }
        }
        next = next + 1;
    }
    assert(order@.take(next as int) =~= order@);
    let list = slot_list(live);
    let complete = order.len() == list.len();
    proof {
        order@.unique_seq_to_set();
        list@.unique_seq_to_set();
        vstd::seq_lib::seq_to_set_is_finite(list@);
        vstd::seq_lib::seq_to_set_is_finite(order@);
        if complete {
            vstd::set_lib::lemma_subset_equality(order@.to_set(), all);
        }
    }
    complete
}

} // verus!
