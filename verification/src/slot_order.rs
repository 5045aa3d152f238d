//! Immutable sorted leaf blocks. Ranks index a compact prefix-sum directory;
//! scans read whole leaves, and updates copy only affected leaves.
use crate::comparator;
use crate::ordered_merge;
use crate::ordered_merge::insert_borrowed;
use crate::sharing::share;
use core::cmp::Ordering;
use std::sync::Arc;
use vstd::prelude::*;

verus! {

pub const LEAF_LENGTH: usize = 4096;

/// The slots of some leaves, one after another.
pub open spec fn flat(blocks: Seq<Arc<Vec<u32>>>) -> Seq<u32>
    decreases blocks.len(),
{
    if blocks.len() == 0 {
        Seq::empty()
    } else {
        flat(blocks.drop_last()) + blocks.last()@
    }
}

/// Leaves are neither empty nor too long.
pub open spec fn leaf_sizes(blocks: Seq<Arc<Vec<u32>>>) -> bool {
    forall|i: int| 0 <= i < blocks.len() ==> 0 < (#[trigger] blocks[i])@.len() <= LEAF_LENGTH
}

/// `s` without the items at `ranks`.
pub open spec fn without_ranks(s: Seq<u32>, ranks: Set<int>) -> Seq<u32>
    decreases s.len(),
{
    if s.len() == 0 {
        s
    } else if ranks.contains(s.len() - 1) {
        without_ranks(s.drop_last(), ranks)
    } else {
        without_ranks(s.drop_last(), ranks).push(s.last())
    }
}

/// The ranks that a list names.
pub open spec fn rank_set(ranks: Seq<usize>) -> Set<int> {
    Set::new(|rank: int| exists|k: int| 0 <= k < ranks.len() && #[trigger] ranks[k] == rank)
}

/// A sequence of slots in leaves, with the rank at which each leaf ends.
#[derive(Clone)]
pub struct SlotOrder {
    pub blocks: Vec<Arc<Vec<u32>>>,
    ends: Vec<usize>,
}

impl View for SlotOrder {
    type V = Seq<u32>;

    closed spec fn view(&self) -> Seq<u32> {
        flat(self.blocks@)
    }
}

proof fn lemma_flat_push(blocks: Seq<Arc<Vec<u32>>>, leaf: Arc<Vec<u32>>)
    ensures
        flat(blocks.push(leaf)) == flat(blocks) + leaf@,
{
    assert(blocks.push(leaf).drop_last() =~= blocks);
}

/// Leaves may be flattened in two parts.
proof fn lemma_flat_split(blocks: Seq<Arc<Vec<u32>>>, cut: int)
    requires
        0 <= cut <= blocks.len(),
    ensures
        flat(blocks) == flat(blocks.take(cut)) + flat(blocks.skip(cut)),
    decreases blocks.len() - cut,
{
    if cut == blocks.len() {
        assert(blocks.take(cut) =~= blocks);
        assert(flat(blocks) =~= flat(blocks) + flat(blocks.skip(cut)));
    } else {
        lemma_flat_split(blocks.drop_last(), cut);
        assert(blocks.drop_last().take(cut) =~= blocks.take(cut));
        assert(blocks.drop_last().skip(cut) =~= blocks.skip(cut).drop_last());
        assert(flat(blocks) =~= flat(blocks.take(cut)) + flat(blocks.skip(cut)));
    }
}

/// The slots of one leaf lie between those of its neighbours.
proof fn lemma_flat_leaf(blocks: Seq<Arc<Vec<u32>>>, leaf: int)
    requires
        0 <= leaf < blocks.len(),
    ensures
        flat(blocks) == flat(blocks.take(leaf)) + blocks[leaf]@ + flat(blocks.skip(leaf + 1)),
        flat(blocks.take(leaf + 1)) == flat(blocks.take(leaf)) + blocks[leaf]@,
{
    lemma_flat_split(blocks, leaf + 1);
    assert(blocks.take(leaf + 1) =~= blocks.take(leaf).push(blocks[leaf]));
    lemma_flat_push(blocks.take(leaf), blocks[leaf]);
}

/// Leaves that end earlier hold no more slots.
proof fn lemma_flat_grows(blocks: Seq<Arc<Vec<u32>>>, first: int, second: int)
    requires
        0 <= first <= second <= blocks.len(),
    ensures
        flat(blocks.take(first)).len() <= flat(blocks.take(second)).len(),
{
    lemma_flat_split(blocks.take(second), first);
    assert(blocks.take(second).take(first) =~= blocks.take(first));
}

impl SlotOrder {
    /// Leaves have admissible sizes and the directory holds their ends.
    pub closed spec fn wf(&self) -> bool {
        &&& leaf_sizes(self.blocks@)
        &&& self.ends@.len() == self.blocks@.len()
        &&& forall|i: int|
            0 <= i < self.ends@.len() ==> #[trigger] self.ends@[i] == flat(
                self.blocks@.take(i + 1),
            ).len()
    }

    fn from_blocks(blocks: Vec<Arc<Vec<u32>>>) -> (order: Self)
        requires
            leaf_sizes(blocks@),
            flat(blocks@).len() <= usize::MAX,
        ensures
            order.wf(),
            order@ == flat(blocks@),
    {
        let mut ends: Vec<usize> = Vec::with_capacity(blocks.len());
        let mut total: usize = 0;
        let mut next: usize = 0;
        proof {
            assert(blocks@.take(0) =~= Seq::<Arc<Vec<u32>>>::empty());
        }
        while next < blocks.len()
            invariant
                next <= blocks@.len(),
                flat(blocks@).len() <= usize::MAX,
                ends@.len() == next,
                total == flat(blocks@.take(next as int)).len(),
                forall|i: int|
                    0 <= i < next ==> #[trigger] ends@[i] == flat(blocks@.take(i + 1)).len(),
            decreases blocks@.len() - next,
        {
            proof {
                lemma_flat_leaf(blocks@, next as int);
            }
            total = total + blocks[next].len();
            ends.push(total);
            next = next + 1;
        }
        SlotOrder { blocks, ends }
    }

    /// The leaves of a list of slots.
    pub fn from_values(values: Vec<u32>) -> (order: Self)
        ensures
            order.wf(),
            order@ == values@,
    {
        let mut blocks: Vec<Arc<Vec<u32>>> = Vec::new();
        split_into(&values, LEAF_LENGTH, &mut blocks);
        assert(flat(blocks@) =~= values@);
        assert(values.len() <= usize::MAX);
        Self::from_blocks(blocks)
    }

    /// How many slots there are.
    pub fn len(&self) -> (length: usize)
        requires
            self.wf(),
        ensures
            length == self@.len(),
    {
        let count = self.ends.len();
        if count == 0 {
            0
        } else {
            assert(self.blocks@.take(count as int) =~= self.blocks@);
            self.ends[count - 1]
        }
    }

    fn start(&self, block: usize) -> (rank: usize)
        requires
            self.wf(),
            block <= self.blocks@.len(),
        ensures
            rank == flat(self.blocks@.take(block as int)).len(),
    {
        if block == 0 {
            assert(self.blocks@.take(0) =~= Seq::<Arc<Vec<u32>>>::empty());
            0
        } else {
            self.ends[block - 1]
        }
    }

    /// The leaf that holds `rank`, or the number of leaves where none does.
    fn block_of(&self, rank: usize) -> (block: usize)
        requires
            self.wf(),
        ensures
            block <= self.blocks@.len(),
            block == self.blocks@.len() <==> rank >= self@.len(),
            block < self.blocks@.len() ==> flat(self.blocks@.take(block as int)).len() <= rank
                < flat(self.blocks@.take(block + 1)).len(),
    {
        let mut low: usize = 0;
        let mut high: usize = self.ends.len();
        while low < high
            invariant
                self.wf(),
                low <= high <= self.ends@.len(),
                forall|i: int| 0 <= i < low ==> #[trigger] self.ends@[i] <= rank,
                forall|i: int| high <= i < self.ends@.len() ==> #[trigger] self.ends@[i] > rank,
            decreases high - low,
        {
            let middle = low + (high - low) / 2;
            if self.ends[middle] <= rank {
                proof {
                    assert forall|i: int| 0 <= i <= middle implies #[trigger] self.ends@[i]
                        <= rank by {
                        lemma_flat_grows(self.blocks@, i + 1, middle + 1);
                    }
                }
                low = middle + 1;
            } else {
                proof {
                    assert forall|i: int|
                        middle <= i < self.ends@.len() implies #[trigger] self.ends@[i] > rank by {
                        lemma_flat_grows(self.blocks@, middle + 1, i + 1);
                    }
                }
                high = middle;
            }
        }
        proof {
            let count = self.blocks@.len() as int;
            assert(self.blocks@.take(count) =~= self.blocks@);
            assert(self.blocks@.take(0) =~= Seq::<Arc<Vec<u32>>>::empty());
            if low < count {
                assert(self.ends@[low as int] > rank);
                lemma_flat_grows(self.blocks@, low + 1, count);
                if low > 0 {
                    assert(self.ends@[low - 1] <= rank);
                }
            } else if count > 0 {
                assert(self.ends@[count - 1] <= rank);
            }
        }
        low
    }

    /// The slot at `rank`.
    pub fn get(&self, rank: usize) -> (slot: Option<&u32>)
        requires
            self.wf(),
        ensures
            rank < self@.len() ==> slot == Some(&self@[rank as int]),
            rank >= self@.len() ==> slot is None,
    {
        let block = self.block_of(rank);
        if block == self.blocks.len() {
            return None;
        }
        let base = self.start(block);
        proof {
            lemma_flat_leaf(self.blocks@, block as int);
        }
        let leaf = &self.blocks[block];
        Some(&leaf[rank - base])
    }

    /// All slots in order.
    pub fn to_vec(&self) -> (slots: Vec<u32>)
        requires
            self.wf(),
        ensures
            slots@ == self@,
    {
        let mut slots: Vec<u32> = Vec::new();
        let length = self.len();
        self.extend_range(&mut slots, 0, length);
        assert(slots@ =~= self@);
        slots
    }

    /// Append the slots from rank `start` up to rank `end`.
    pub fn extend_range(&self, output: &mut Vec<u32>, start: usize, end: usize)
        requires
            self.wf(),
            start <= end <= self@.len(),
        ensures
            final(output)@ == old(output)@ + self@.subrange(start as int, end as int),
    {
        if start == end {
            assert(output@ =~= output@ + self@.subrange(start as int, end as int));
            return;
        }
        let ghost before = output@;
        let count: usize = self.blocks.len();
        let mut block = self.block_of(start);
        let mut done: usize = start;
        proof {
            assert(before =~= before + self@.subrange(start as int, start as int));
        }
        while done < end
            invariant
                self.wf(),
                start <= done <= end <= self@.len(),
                block <= count == self.blocks@.len(),
                done < end ==> block < self.blocks@.len(),
                done < end ==> flat(self.blocks@.take(block as int)).len() <= done < flat(
                    self.blocks@.take(block + 1),
                ).len(),
                output@ == before + self@.subrange(start as int, done as int),
            decreases end - done,
        {
            let base = self.start(block);
            let leaf = &self.blocks[block];
            let rest: usize = end - base;
            let stop: usize = if rest < leaf.len() {
                rest
            } else {
                leaf.len()
            };
            let ghost from = done;
            let mut offset: usize = done - base;
            proof {
                lemma_flat_leaf(self.blocks@, block as int);
            }
            while offset < stop
                invariant
                    self.wf(),
                    start <= from,
                    block < self.blocks@.len(),
                    base == flat(self.blocks@.take(block as int)).len(),
                    leaf@ == self.blocks@[block as int]@,
                    from - base <= offset <= stop <= leaf@.len(),
                    base <= from,
                    base + stop <= self@.len(),
                    self@ == flat(self.blocks@.take(block as int)) + leaf@ + flat(
                        self.blocks@.skip(block + 1),
                    ),
                    output@ == before + self@.subrange(start as int, base + offset),
                decreases stop - offset,
            {
                output.push(leaf[offset]);
                offset = offset + 1;
                proof {
                    assert(self@[base + offset - 1] == leaf@[offset - 1]);
                    assert(self@.subrange(start as int, base + offset) =~= self@.subrange(
                        start as int,
                        base + offset - 1,
                    ).push(leaf@[offset - 1]));
                    assert(output@ =~= before + self@.subrange(start as int, base + offset));
                }
            }
            done = base + stop;
            block = block + 1;
            proof {
                if done < end {
                    if block == self.blocks@.len() {
                        assert(self.blocks@.take(block as int) =~= self.blocks@);
                    } else {
                        lemma_flat_leaf(self.blocks@, block as int);
                    }
                }
            }
        }
    }
}

/// Append `values` to `blocks` in leaves of `length` slots, the last one possibly shorter.
fn split_into(values: &Vec<u32>, length: usize, blocks: &mut Vec<Arc<Vec<u32>>>)
    requires
        0 < length <= LEAF_LENGTH,
        leaf_sizes(old(blocks)@),
    ensures
        leaf_sizes(final(blocks)@),
        flat(final(blocks)@) == flat(old(blocks)@) + values@,
{
    let ghost before = flat(blocks@);
    let mut start: usize = 0;
    proof {
        assert(before =~= before + values@.take(0));
    }
    while start < values.len()
        invariant
            0 < length <= LEAF_LENGTH,
            start <= values@.len(),
            leaf_sizes(blocks@),
            flat(blocks@) == before + values@.take(start as int),
        decreases values@.len() - start,
    {
        let rest: usize = values.len() - start;
        let end: usize = if length < rest {
            start + length
        } else {
            values.len()
        };
        let mut leaf: Vec<u32> = Vec::with_capacity(end - start);
        let mut next: usize = start;
        while next < end
            invariant
                start <= next <= end <= values@.len(),
                leaf@ == values@.subrange(start as int, next as int),
            decreases end - next,
        {
            leaf.push(values[next]);
            next = next + 1;
            assert(leaf@ =~= values@.subrange(start as int, next as int));
        }
        let ghost held = blocks@;
        let leaf = Arc::new(leaf);
        blocks.push(leaf);
        proof {
            lemma_flat_push(held, leaf);
            assert(before + values@.take(end as int) =~= before + values@.take(start as int)
                + values@.subrange(start as int, end as int));
        }
        start = end;
    }
    assert(values@.take(values@.len() as int) =~= values@);
}

/// `probe` gives the answer of `compare` about every slot.
pub open spec fn probe_fits<F: Fn(&u32) -> Ordering>(
    compare: F,
    probe: spec_fn(u32) -> Ordering,
) -> bool {
    forall|v: u32, o: Ordering| #[trigger] call_ensures(compare, (&v,), o) ==> o == probe(v)
}

/// What a probe calls less comes first, and what it calls greater comes last.
pub open spec fn graded(probe: spec_fn(u32) -> Ordering, s: Seq<u32>) -> bool {
    forall|i: int, j: int|
        0 <= i < j < s.len() ==> {
            &&& probe(#[trigger] s[j]) == Ordering::Less ==> probe(#[trigger] s[i])
                == Ordering::Less
            &&& probe(s[i]) == Ordering::Greater ==> probe(s[j]) == Ordering::Greater
        }
}

/// What a search by `probe` may answer on `s`.
pub open spec fn search_answer(
    probe: spec_fn(u32) -> Ordering,
    s: Seq<u32>,
    result: Result<usize, usize>,
) -> bool {
    match result {
        Ok(rank) => probe(s[comparator::ix(rank)]) == Ordering::Equal,
        Err(rank) => graded(probe, s) ==> {
            &&& forall|i: int| 0 <= i < rank ==> probe(#[trigger] s[i]) == Ordering::Less
            &&& forall|i: int| rank <= i < s.len() ==> probe(#[trigger] s[i]) == Ordering::Greater
        },
    }
}

impl SlotOrder {
    /// The rank of a slot that `compare` calls equal or, where there is none, the rank at
    /// which one would stand.
    pub fn binary_search_by<F: Fn(&u32) -> Ordering>(&self, compare: F) -> (result: Result<
        usize,
        usize,
    >)
        requires
            self.wf(),
            forall|v: u32| #[trigger] call_requires(compare, (&v,)),
        ensures
            result matches Ok(rank) ==> rank < self@.len(),
            result matches Err(rank) ==> rank <= self@.len(),
            forall|probe: spec_fn(u32) -> Ordering| #[trigger]
                probe_fits(compare, probe) ==> search_answer(probe, self@, result),
    {
        let ghost s = self@;
        let mut low: usize = 0;
        let mut high: usize = self.blocks.len();
        while low < high
            invariant
                self.wf(),
                s == self@,
                forall|v: u32| #[trigger] call_requires(compare, (&v,)),
                low <= high <= self.blocks@.len(),
                forall|probe: spec_fn(u32) -> Ordering, i: int|
                    #[trigger] probe_fits(compare, probe) && graded(probe, s) && 0 <= i < flat(
                        self.blocks@.take(comparator::ix(low)),
                    ).len() ==> probe(#[trigger] s[i]) == Ordering::Less,
                high < self.blocks@.len() ==> forall|probe: spec_fn(u32) -> Ordering| #[trigger]
                    probe_fits(compare, probe) ==> probe(self.blocks@[comparator::ix(high)]@.last())
                        != Ordering::Less,
            decreases high - low,
        {
            let middle = low + (high - low) / 2;
            let leaf = &self.blocks[middle];
            let last = leaf[leaf.len() - 1];
            let order = compare(&last);
            let ghost m = comparator::ix(middle);
            proof {
                lemma_flat_leaf(self.blocks@, m);
                let rank = flat(self.blocks@.take(m + 1)).len() - 1;
                assert(s[rank] == last);
                if order == Ordering::Less {
                    assert forall|probe: spec_fn(u32) -> Ordering, i: int|
                        #[trigger] probe_fits(compare, probe) && graded(probe, s) && 0 <= i < flat(
                            self.blocks@.take(m + 1),
                        ).len() implies probe(#[trigger] s[i]) == Ordering::Less by {
                        assert(probe(s[rank]) == Ordering::Less);
                    }
                }
            }
            if matches!(order, Ordering::Less) {
                low = middle + 1;
            } else {
                high = middle;
            }
        }
        if low == self.blocks.len() {
            assert(self.blocks@.take(comparator::ix(low)) =~= self.blocks@);
            return Err(self.len());
        }
        let base = self.start(low);
        let leaf = &self.blocks[low];
        let ghost b = comparator::ix(low);
        proof {
            lemma_flat_leaf(self.blocks@, b);
        }
        let ghost end = flat(self.blocks@.take(b + 1)).len() + 0int;
        proof {
            assert(s[end - 1] == leaf@.last());
            assert forall|probe: spec_fn(u32) -> Ordering, i: int|
                #[trigger] probe_fits(compare, probe) && graded(probe, s) && end <= i
                    < s.len() implies probe(#[trigger] s[i]) != Ordering::Less by {
                assert(probe(s[end - 1]) != Ordering::Less);
            }
        }
        let total = self.len();
        let mut first: usize = 0;
        let mut past: usize = leaf.len();
        while first < past
            invariant
                s == self@,
                forall|v: u32| #[trigger] call_requires(compare, (&v,)),
                first <= past <= leaf@.len(),
                base + leaf@.len() == end <= s.len() <= usize::MAX,
                forall|i: int| 0 <= i < leaf@.len() ==> #[trigger] s[base + i] == leaf@[i],
                forall|probe: spec_fn(u32) -> Ordering, i: int|
                    #[trigger] probe_fits(compare, probe) && graded(probe, s) && 0 <= i < base
                        + first ==> probe(#[trigger] s[i]) == Ordering::Less,
                past < leaf@.len() ==> forall|probe: spec_fn(u32) -> Ordering| #[trigger]
                    probe_fits(compare, probe) ==> probe(s[base + past]) == Ordering::Greater,
                past == leaf@.len() ==> forall|probe: spec_fn(u32) -> Ordering| #[trigger]
                    probe_fits(compare, probe) ==> probe(s[end - 1]) != Ordering::Less,
            decreases past - first,
        {
            let middle = first + (past - first) / 2;
            let order = compare(&leaf[middle]);
            assert(s[base + middle] == leaf@[comparator::ix(middle)]);
            match order {
                Ordering::Equal => {
                    return Ok(base + middle);
                },
                Ordering::Less => {
                    first = middle + 1;
                    proof {
                        assert forall|probe: spec_fn(u32) -> Ordering, i: int|
                            #[trigger] probe_fits(compare, probe) && graded(probe, s) && 0 <= i
                                < base + first implies probe(#[trigger] s[i])
                            == Ordering::Less by {
                            assert(probe(s[base + middle]) == Ordering::Less);
                        }
                    }
                },
                Ordering::Greater => {
                    past = middle;
                },
            }
        }
        proof {
            assert forall|probe: spec_fn(u32) -> Ordering| #[trigger]
                probe_fits(compare, probe) && graded(probe, s) implies forall|i: int|
                base + first <= i < s.len() ==> probe(#[trigger] s[i]) == Ordering::Greater by {
                if past == leaf@.len() {
                    assert(probe(s[end - 1]) == Ordering::Less);
                } else {
                    assert(probe(s[base + past]) == Ordering::Greater);
                }
            }
        }
        Err(base + first)
    }
}

/// `std`'s `sort_unstable` on integers: the same integers in ascending order.
#[verifier::external_body]
fn sort_ranks(ranks: &mut Vec<usize>)
    ensures
        final(ranks)@.to_multiset() == old(ranks)@.to_multiset(),
        forall|i: int, j: int|
            0 <= i < j < final(ranks)@.len() ==> #[trigger] final(ranks)@[i]
                <= #[trigger] final(ranks)@[j],
{
    ranks.sort_unstable();
}

/// Sort ranks and drop repetitions.
fn sort_distinct(ranks: &mut Vec<usize>)
    ensures
        rank_set(final(ranks)@) == rank_set(old(ranks)@),
        forall|i: int, j: int|
            0 <= i < j < final(ranks)@.len() ==> #[trigger] final(ranks)@[i]
                < #[trigger] final(ranks)@[j],
{
    broadcast use vstd::seq_lib::group_to_multiset_ensures;

    let ghost before = ranks@;
    sort_ranks(ranks);
    let ghost sorted = ranks@;
    proof {
        assert forall|r: int| rank_set(before).contains(r) == rank_set(sorted).contains(r) by {
            if rank_set(before).contains(r) {
                let k = choose|k: int| 0 <= k < before.len() && #[trigger] before[k] == r;
                assert(before.contains(before[k]));
                assert(before.to_multiset().count(before[k]) > 0);
                assert(sorted.contains(before[k]));
            }
            if rank_set(sorted).contains(r) {
                let k = choose|k: int| 0 <= k < sorted.len() && #[trigger] sorted[k] == r;
                assert(sorted.contains(sorted[k]));
                assert(sorted.to_multiset().count(sorted[k]) > 0);
                assert(before.contains(sorted[k]));
            }
        }
    }
    let mut distinct: Vec<usize> = Vec::new();
    let mut next: usize = 0;
    while next < ranks.len()
        invariant
            next <= ranks@.len(),
            ranks@ == sorted,
            forall|i: int, j: int|
                0 <= i < j < sorted.len() ==> #[trigger] sorted[i] <= #[trigger] sorted[j],
            forall|i: int, j: int|
                0 <= i < j < distinct@.len() ==> #[trigger] distinct@[i] < #[trigger] distinct@[j],
            next > 0 ==> distinct@.len() > 0 && distinct@.last() == sorted[next - 1],
            next == 0 ==> distinct@.len() == 0,
            forall|i: int| 0 <= i < distinct@.len() ==> sorted.contains(#[trigger] distinct@[i]),
            forall|i: int| 0 <= i < next ==> distinct@.contains(#[trigger] sorted[i]),
        decreases ranks@.len() - next,
    {
        let rank = ranks[next];
        let ghost held = distinct@;
        let count = distinct.len();
        if count == 0 || distinct[count - 1] != rank {
            distinct.push(rank);
            proof {
                assert(distinct@[held.len() as int] == rank);
                assert forall|i: int| 0 <= i < next + 1 implies distinct@.contains(
                    #[trigger] sorted[i],
                ) by {
                    if i < next {
                        assert(held.contains(sorted[i]));
                        let k = choose|k: int| 0 <= k < held.len() && held[k] == sorted[i];
                        assert(distinct@[k] == sorted[i]);
                    }
                }
            }
        } else {
            assert(distinct@[count - 1] == sorted[next as int]);
        }
        next = next + 1;
    }
    proof {
        assert forall|r: int| rank_set(sorted).contains(r) == rank_set(distinct@).contains(r) by {
            if rank_set(sorted).contains(r) {
                let k = choose|k: int| 0 <= k < sorted.len() && #[trigger] sorted[k] == r;
                assert(distinct@.contains(sorted[k]));
            }
            if rank_set(distinct@).contains(r) {
                let k = choose|k: int| 0 <= k < distinct@.len() && #[trigger] distinct@[k] == r;
                assert(sorted.contains(distinct@[k]));
            }
        }
        assert(rank_set(distinct@) =~= rank_set(before));
    }
    *ranks = distinct;
}

/// Dropping ranks works leaf by leaf.
proof fn lemma_without_push(s: Seq<u32>, slot: u32, ranks: Set<int>)
    ensures
        without_ranks(s.push(slot), ranks) == (if ranks.contains(s.len() as int) {
            without_ranks(s, ranks)
        } else {
            without_ranks(s, ranks).push(slot)
        }),
{
    assert(s.push(slot).drop_last() =~= s);
}

/// Dropping ranks keeps the order of the rest.
proof fn lemma_without_sorted<F: Fn(u32, u32) -> Ordering>(compare: F, s: Seq<u32>, ranks: Set<int>)
    requires
        comparator::in_order(compare, s),
    ensures
        comparator::in_order(compare, without_ranks(s, ranks)),
        forall|v: u32| without_ranks(s, ranks).contains(v) ==> s.contains(v),
    decreases s.len(),
{
    if s.len() > 0 {
        let head = s.drop_last();
        assert(comparator::in_order(compare, head));
        lemma_without_sorted(compare, head, ranks);
        let kept = without_ranks(head, ranks);
        assert forall|v: u32| without_ranks(s, ranks).contains(v) implies s.contains(v) by {
            if kept.contains(v) {
                assert(head.contains(v));
                let k = choose|k: int| 0 <= k < head.len() && head[k] == v;
                assert(s[k] == v);
            } else {
                assert(s.last() == v);
            }
        }
        if !ranks.contains(s.len() - 1) {
            let all = kept.push(s.last());
            assert forall|i: int, j: int| 0 <= i < j < all.len() implies comparator::at_most(
                compare,
                #[trigger] all[i],
                #[trigger] all[j],
            ) by {
                if j == kept.len() {
                    assert(kept.contains(kept[i]));
                    assert(head.contains(all[i]));
                    let k = choose|k: int| 0 <= k < head.len() && head[k] == all[i];
                    assert(s[k] == all[i]);
                    assert(comparator::at_most(compare, s[k], s[s.len() - 1]));
                }
            }
        }
    }
}

proof fn lemma_without_shrinks(s: Seq<u32>, ranks: Set<int>)
    ensures
        without_ranks(s, ranks).len() <= s.len(),
    decreases s.len(),
{
    if s.len() > 0 {
        lemma_without_shrinks(s.drop_last(), ranks);
    }
}

impl SlotOrder {
    /// The leaves without the slots at `ranks`. A leaf that loses none is shared.
    fn retained(&self, ranks: &Vec<usize>) -> (blocks: Vec<Arc<Vec<u32>>>)
        requires
            self.wf(),
            forall|i: int, j: int|
                0 <= i < j < ranks@.len() ==> #[trigger] ranks@[i] < #[trigger] ranks@[j],
            forall|i: int| 0 <= i < ranks@.len() ==> #[trigger] ranks@[i] < self@.len(),
        ensures
            leaf_sizes(blocks@),
            flat(blocks@) == without_ranks(self@, rank_set(ranks@)),
    {
        let ghost gone = rank_set(ranks@);
        let mut blocks: Vec<Arc<Vec<u32>>> = Vec::with_capacity(self.blocks.len());
        let mut cursor: usize = 0;
        let mut index: usize = 0;
        proof {
            assert(self.blocks@.take(0) =~= Seq::<Arc<Vec<u32>>>::empty());
        }
        while index < self.blocks.len()
            invariant
                self.wf(),
                gone == rank_set(ranks@),
                forall|i: int, j: int|
                    0 <= i < j < ranks@.len() ==> #[trigger] ranks@[i] < #[trigger] ranks@[j],
                index <= self.blocks@.len(),
                cursor <= ranks@.len(),
                leaf_sizes(blocks@),
                forall|i: int|
                    0 <= i < cursor ==> #[trigger] ranks@[i] < flat(
                        self.blocks@.take(index as int),
                    ).len(),
                forall|i: int|
                    cursor <= i < ranks@.len() ==> #[trigger] ranks@[i] >= flat(
                        self.blocks@.take(index as int),
                    ).len(),
                flat(blocks@) == without_ranks(flat(self.blocks@.take(index as int)), gone),
            decreases self.blocks@.len() - index,
        {
            let leaf = &self.blocks[index];
            let ghost before = flat(self.blocks@.take(index as int));
            let base = self.start(index);
            let first = cursor;
            let mut kept: Vec<u32> = Vec::new();
            let mut offset: usize = 0;
            proof {
                lemma_flat_leaf(self.blocks@, index as int);
                lemma_flat_grows(self.blocks@, index + 1, self.blocks@.len() as int);
                assert(self.blocks@.take(self.blocks@.len() as int) =~= self.blocks@);
                assert(before + leaf@.take(0) =~= before);
                assert(flat(blocks@) =~= flat(blocks@) + kept@);
            }
            assert(base + leaf@.len() <= usize::MAX) by {
                assert(self.ends@[index as int] == flat(self.blocks@.take(index + 1)).len());
            }
            let ghost held = flat(blocks@);
            while offset < leaf.len()
                invariant
                    gone == rank_set(ranks@),
                    forall|i: int, j: int|
                        0 <= i < j < ranks@.len() ==> #[trigger] ranks@[i] < #[trigger] ranks@[j],
                    offset <= leaf@.len(),
                    before.len() == base,
                    base + leaf@.len() <= usize::MAX,
                    first <= cursor <= ranks@.len(),
                    forall|i: int| 0 <= i < cursor ==> #[trigger] ranks@[i] < base + offset,
                    forall|i: int|
                        cursor <= i < ranks@.len() ==> #[trigger] ranks@[i] >= base + offset,
                    held + kept@ == without_ranks(before + leaf@.take(offset as int), gone),
                    held == without_ranks(before, gone),
                    cursor == first ==> kept@ == leaf@.take(offset as int),
                    kept@.len() <= offset,
                decreases leaf@.len() - offset,
            {
                let ghost part = before + leaf@.take(offset as int);
                let slot = leaf[offset];
                let drop_it = cursor < ranks.len() && ranks[cursor] == base + offset;
                proof {
                    assert(before + leaf@.take(offset + 1) =~= part.push(slot));
                    lemma_without_push(part, slot, gone);
                    if gone.contains(base + offset) {
                        let k = choose|k: int|
                            0 <= k < ranks@.len() && #[trigger] ranks@[k] == base + offset;
                        if k > cursor {
                            assert(ranks@[cursor as int] < ranks@[k]);
                        }
                        assert(drop_it);
                    }
                    if drop_it {
                        assert(ranks@[cursor as int] == base + offset);
                    }
                }
                if drop_it {
                    cursor = cursor + 1;
                } else {
                    kept.push(slot);
                    proof {
                        assert(held + kept@ =~= without_ranks(part, gone).push(slot));
                        assert(leaf@.take(offset + 1) =~= leaf@.take(offset as int).push(slot));
                    }
                }
                offset = offset + 1;
            }
            assert(leaf@.take(leaf@.len() as int) =~= leaf@);
            let ghost list = blocks@;
            if cursor == first {
                let shared = share(leaf);
                blocks.push(shared);
                proof {
                    lemma_flat_push(list, shared);
                }
            } else if kept.len() > 0 {
                let ghost values = kept@;
                let leaf = Arc::new(kept);
                blocks.push(leaf);
                proof {
                    lemma_flat_push(list, leaf);
                }
            } else {
                assert(held + kept@ =~= held);
            }
            index = index + 1;
        }
        assert(self.blocks@.take(index as int) =~= self.blocks@);
        blocks
    }
}

/// Leaves that hold something.
pub open spec fn filled(blocks: Seq<Arc<Vec<u32>>>) -> bool {
    forall|i: int| 0 <= i < blocks.len() ==> (#[trigger] blocks[i])@.len() > 0
}

/// Replacing what stands between two parts keeps the whole sorted where the new middle is
/// sorted and fits between them.
proof fn lemma_middle_in_order<F: Fn(u32, u32) -> Ordering>(
    compare: F,
    left: Seq<u32>,
    middle: Seq<u32>,
    right: Seq<u32>,
    leaf: Seq<u32>,
    group: Seq<u32>,
)
    requires
        comparator::in_order(compare, left + leaf + right),
        comparator::in_order(compare, middle),
        middle.to_multiset() == leaf.to_multiset().add(group.to_multiset()),
        forall|i: int, j: int|
            0 <= i < left.len() && 0 <= j < group.len() ==> comparator::at_most(
                compare,
                #[trigger] left[i],
                #[trigger] group[j],
            ),
        forall|i: int, j: int|
            0 <= i < right.len() && 0 <= j < group.len() ==> comparator::at_most(
                compare,
                #[trigger] group[j],
                #[trigger] right[i],
            ),
    ensures
        comparator::in_order(compare, left + middle + right),
{
    broadcast use vstd::seq_lib::group_to_multiset_ensures;

    let (old, new) = (left + leaf + right, left + middle + right);
    let (a, b, c) = (left.len(), leaf.len(), middle.len());
    assert forall|i: int, j: int| 0 <= i < j < new.len() implies comparator::at_most(
        compare,
        #[trigger] new[i],
        #[trigger] new[j],
    ) by {
        let (low_i, mid_i) = (i < a, a <= i < a + c);
        let (low_j, mid_j) = (j < a, a <= j < a + c);
        if low_i && low_j {
            assert(old[i] == new[i] && old[j] == new[j]);
        } else if low_i && mid_j {
            let v = new[j];
            assert(middle[j - a] == v);
            assert(middle.contains(v));
            assert(middle.to_multiset().count(v) > 0);
            assert(old[i] == left[i]);
            if leaf.to_multiset().count(v) > 0 {
                assert(leaf.contains(v));
                let k = choose|k: int| 0 <= k < leaf.len() && leaf[k] == v;
                assert(old[a + k] == v);
            } else {
                assert(group.contains(v));
                let k = choose|k: int| 0 <= k < group.len() && group[k] == v;
                assert(comparator::at_most(compare, left[i], group[k]));
            }
        } else if low_i {
            assert(old[i] == new[i]);
            assert(new[j] == right[j - a - c]);
            assert(old[j - c + b] == new[j]);
        } else if mid_i && mid_j {
            assert(new[i] == middle[i - a] && new[j] == middle[j - a]);
        } else if mid_i {
            let v = new[i];
            assert(middle[i - a] == v);
            assert(middle.contains(v));
            assert(middle.to_multiset().count(v) > 0);
            assert(new[j] == right[j - a - c]);
            assert(old[j - c + b] == right[j - a - c]);
            if leaf.to_multiset().count(v) > 0 {
                assert(leaf.contains(v));
                let k = choose|k: int| 0 <= k < leaf.len() && leaf[k] == v;
                assert(old[a + k] == v);
            } else {
                assert(group.contains(v));
                let k = choose|k: int| 0 <= k < group.len() && group[k] == v;
                assert(comparator::at_most(compare, group[k], right[j - a - c]));
            }
        } else {
            assert(new[i] == right[i - a - c] && new[j] == right[j - a - c]);
            assert(old[i - c + b] == new[i] && old[j - c + b] == new[j]);
        }
    }
}

/// The first leaf whose last slot does not precede `slot`, or the last leaf.
fn leaf_for<F: Fn(u32, u32) -> Ordering>(
    blocks: &Vec<Arc<Vec<u32>>>,
    slot: u32,
    compare: &F,
) -> (index: usize)
    requires
        blocks@.len() > 0,
        filled(blocks@),
        forall|a: u32, b: u32| #[trigger] call_requires(*compare, (a, b)),
    ensures
        index < blocks@.len(),
        comparator::in_order(*compare, flat(blocks@)) ==> forall|i: int|
            0 <= i < flat(blocks@.take(comparator::ix(index))).len() ==> comparator::at_most(
                *compare,
                #[trigger] flat(blocks@)[i],
                slot,
            ),
        index + 1 < blocks@.len() ==> comparator::at_most(
            *compare,
            slot,
            blocks@[comparator::ix(index)]@.last(),
        ),
{
    let ghost s = flat(blocks@);
    let mut low: usize = 0;
    let mut high: usize = blocks.len();
    proof {
        assert(blocks@.take(0) =~= Seq::<Arc<Vec<u32>>>::empty());
    }
    while low < high
        invariant
            s == flat(blocks@),
            filled(blocks@),
            forall|a: u32, b: u32| #[trigger] call_requires(*compare, (a, b)),
            low <= high <= blocks@.len(),
            comparator::in_order(*compare, s) ==> forall|i: int|
                0 <= i < flat(blocks@.take(comparator::ix(low))).len() ==> comparator::at_most(
                    *compare,
                    #[trigger] s[i],
                    slot,
                ),
            high < blocks@.len() ==> comparator::at_most(
                *compare,
                slot,
                blocks@[comparator::ix(high)]@.last(),
            ),
        decreases high - low,
    {
        let middle = low + (high - low) / 2;
        let leaf = &blocks[middle];
        let ghost m = comparator::ix(middle);
        assert(blocks@[m]@.len() > 0);
        let last = leaf[leaf.len() - 1];
        let order = compare(last, slot);
        proof {
            comparator::lemma_compared(*compare, last, slot, order);
            lemma_flat_leaf(blocks@, m);
            let rank = flat(blocks@.take(m + 1)).len() - 1;
            assert(s[rank] == last);
            if comparator::in_order(*compare, s) && order == Ordering::Less {
                assert forall|i: int|
                    0 <= i < flat(blocks@.take(m + 1)).len() implies comparator::at_most(
                    *compare,
                    #[trigger] s[i],
                    slot,
                ) by {
                    if i < rank {
                        assert(comparator::at_most(*compare, s[i], s[rank]));
                        comparator::lemma_at_most_transitive(*compare, s[i], last, slot);
                    }
                }
            }
        }
        if matches!(order, Ordering::Less) {
            low = middle + 1;
        } else {
            high = middle;
        }
    }
    if low == blocks.len() {
        proof {
            lemma_flat_grows(blocks@, low - 1, comparator::ix(low));
        }
        low - 1
    } else {
        low
    }
}

/// Put sorted `replacements` into the leaves where they belong.
fn insert_into_leaves<F: Fn(u32, u32) -> Ordering>(
    blocks: &mut Vec<Arc<Vec<u32>>>,
    replacements: &[u32],
    compare: &F,
)
    requires
        old(blocks)@.len() > 0,
        filled(old(blocks)@),
        flat(old(blocks)@).len() + replacements@.len() <= usize::MAX,
        forall|a: u32, b: u32| #[trigger] call_requires(*compare, (a, b)),
    ensures
        filled(final(blocks)@),
        flat(final(blocks)@).to_multiset() == flat(old(blocks)@).to_multiset().add(
            replacements@.to_multiset(),
        ),
        comparator::in_order(*compare, flat(old(blocks)@)) && comparator::in_order(
            *compare,
            replacements@,
        ) ==> comparator::in_order(*compare, flat(final(blocks)@)),
        replacements@.len() == 0 ==> flat(final(blocks)@) == flat(old(blocks)@),
{
    broadcast use vstd::seq_lib::group_to_multiset_ensures;

    let ghost before = flat(blocks@);
    let ghost ordered = comparator::in_order(*compare, before) && comparator::in_order(
        *compare,
        replacements@,
    );
    let mut first: usize = 0;
    proof {
        assert(replacements@.take(0) =~= Seq::<u32>::empty());
        assert(before.to_multiset() =~= before.to_multiset().add(
            Seq::<u32>::empty().to_multiset(),
        ));
    }
    while first < replacements.len()
        invariant
            first <= replacements@.len(),
            blocks@.len() > 0,
            filled(blocks@),
            before.len() + replacements@.len() <= usize::MAX,
            forall|a: u32, b: u32| #[trigger] call_requires(*compare, (a, b)),
            ordered ==> comparator::in_order(*compare, replacements@),
            ordered ==> comparator::in_order(*compare, flat(blocks@)),
            flat(blocks@).to_multiset() == before.to_multiset().add(
                replacements@.take(comparator::ix(first)).to_multiset(),
            ),
            replacements@.len() == 0 ==> flat(blocks@) == before,
        decreases replacements@.len() - first,
    {
        let index = leaf_for(blocks, replacements[first], compare);
        let ghost (leaves, x, f) = (blocks@, comparator::ix(index), comparator::ix(first));
        assert(leaves[x]@.len() > 0);
        let leaf = &blocks[index];
        let last = leaf[leaf.len() - 1];
        let mut end: usize = replacements.len();
        if index < blocks.len() - 1 {
            let mut low: usize = first;
            let mut high: usize = replacements.len();
            while low < high
                invariant
                    first <= low <= high <= replacements@.len(),
                    forall|a: u32, b: u32| #[trigger] call_requires(*compare, (a, b)),
                    ordered ==> comparator::in_order(*compare, replacements@),
                    ordered ==> forall|i: int|
                        first <= i < low ==> comparator::at_most(
                            *compare,
                            #[trigger] replacements@[i],
                            last,
                        ),
                decreases high - low,
            {
                let middle = low + (high - low) / 2;
                let order = compare(replacements[middle], last);
                let ghost m = comparator::ix(middle);
                proof {
                    comparator::lemma_compared(*compare, replacements@[m], last, order);
                    if ordered && order != Ordering::Greater {
                        assert forall|i: int| first <= i <= m implies comparator::at_most(
                            *compare,
                            #[trigger] replacements@[i],
                            last,
                        ) by {
                            if i < m {
                                assert(comparator::at_most(
                                    *compare,
                                    replacements@[i],
                                    replacements@[m],
                                ));
                                comparator::lemma_at_most_transitive(
                                    *compare,
                                    replacements@[i],
                                    replacements@[m],
                                    last,
                                );
                            }
                        }
                    }
                }
                if matches!(order, Ordering::Greater) {
                    high = middle;
                } else {
                    low = middle + 1;
                }
            }
            // The comparison that chose this leaf already placed the first one here.
            end = if low > first {
                low
            } else {
                first + 1
            };
        }
        let ghost e = comparator::ix(end);
        let mut group: Vec<u32> = Vec::new();
        let mut next: usize = first;
        while next < end
            invariant
                first <= next <= end <= replacements@.len(),
                group@ == replacements@.subrange(f, comparator::ix(next)),
                f == first,
            decreases end - next,
        {
            group.push(replacements[next]);
            next = next + 1;
            assert(group@ =~= replacements@.subrange(f, comparator::ix(next)));
        }
        let ghost old_leaf = leaves[x]@;
        proof {
            lemma_flat_leaf(leaves, x);
            before.to_multiset_ensures();
            replacements@.take(f).to_multiset_ensures();
            flat(leaves).to_multiset_ensures();
            assert(flat(leaves).len() == before.len() + f);
        }
        let mut slots: Vec<u32> = copy_leaf(leaf);
        insert_borrowed(&mut slots, group.as_slice(), compare);
        let ghost merged = slots@;
        let changed = Arc::new(slots);
        blocks.set(index, changed);
        proof {
            let (left, right) = (flat(leaves.take(x)), flat(leaves.skip(x + 1)));
            assert(merged.len() == old_leaf.len() + group@.len()) by {
                merged.to_multiset_ensures();
                old_leaf.to_multiset_ensures();
                group@.to_multiset_ensures();
            }
            lemma_flat_leaf(blocks@, x);
            assert(blocks@.take(x) =~= leaves.take(x));
            assert(blocks@.skip(x + 1) =~= leaves.skip(x + 1));
            assert(flat(blocks@) == left + merged + right);
            vstd::seq_lib::lemma_multiset_commutative(left, merged);
            vstd::seq_lib::lemma_multiset_commutative(left + merged, right);
            vstd::seq_lib::lemma_multiset_commutative(left, old_leaf);
            vstd::seq_lib::lemma_multiset_commutative(left + old_leaf, right);
            vstd::seq_lib::lemma_multiset_commutative(replacements@.take(f), group@);
            assert(replacements@.take(f) + group@ =~= replacements@.take(e));
            assert(merged.to_multiset() == old_leaf.to_multiset().add(group@.to_multiset()));
            assert(flat(leaves).to_multiset() == left.to_multiset().add(
                old_leaf.to_multiset(),
            ).add(right.to_multiset()));
            assert(flat(blocks@).to_multiset() == left.to_multiset().add(merged.to_multiset()).add(
                right.to_multiset(),
            ));
            assert(replacements@.take(e).to_multiset() == replacements@.take(f).to_multiset().add(
                group@.to_multiset(),
            ));
            assert(flat(blocks@).to_multiset() =~= flat(leaves).to_multiset().add(
                group@.to_multiset(),
            ));
            assert(flat(blocks@).to_multiset() =~= before.to_multiset().add(
                replacements@.take(e).to_multiset(),
            ));
            if ordered {
                let all = left + old_leaf + right;
                assert(comparator::in_order(*compare, old_leaf)) by {
                    assert forall|i: int, j: int|
                        0 <= i < j < old_leaf.len() implies comparator::at_most(
                        *compare,
                        #[trigger] old_leaf[i],
                        #[trigger] old_leaf[j],
                    ) by {
                        assert(all[left.len() + i] == old_leaf[i]);
                        assert(all[left.len() + j] == old_leaf[j]);
                    }
                }
                assert(comparator::in_order(*compare, group@)) by {
                    assert forall|i: int, j: int|
                        0 <= i < j < group@.len() implies comparator::at_most(
                        *compare,
                        #[trigger] group@[i],
                        #[trigger] group@[j],
                    ) by {
                        assert(group@[i] == replacements@[f + i]);
                        assert(group@[j] == replacements@[f + j]);
                    }
                }
                ordered_merge::lemma_merged_is_sorted(*compare, old_leaf, group@, merged);
                assert forall|i: int, j: int|
                    0 <= i < left.len() && 0 <= j < group@.len() implies comparator::at_most(
                    *compare,
                    #[trigger] left[i],
                    #[trigger] group@[j],
                ) by {
                    assert(all[i] == left[i]);
                    assert(comparator::at_most(*compare, all[i], replacements@[f]));
                    assert(group@[j] == replacements@[f + j]);
                    if j > 0 {
                        comparator::lemma_at_most_transitive(
                            *compare,
                            all[i],
                            replacements@[f],
                            replacements@[f + j],
                        );
                    }
                }
                assert forall|i: int, j: int|
                    0 <= i < right.len() && 0 <= j < group@.len() implies comparator::at_most(
                    *compare,
                    #[trigger] group@[j],
                    #[trigger] right[i],
                ) by {
                    if x + 1 == leaves.len() {
                        assert(leaves.skip(x + 1) =~= Seq::<Arc<Vec<u32>>>::empty());
                    }
                    let rank = left.len() + old_leaf.len() - 1;
                    assert(all[rank] == last);
                    assert(all[rank + 1 + i] == right[i]);
                    assert(comparator::at_most(*compare, last, right[i]));
                    assert(group@[j] == replacements@[f + j]);
                    comparator::lemma_at_most_transitive(*compare, group@[j], last, right[i]);
                }
                lemma_middle_in_order(*compare, left, merged, right, old_leaf, group@);
            }
        }
        first = end;
    }
    proof {
        assert(replacements@.take(comparator::ix(first)) =~= replacements@);
    }
}

/// A leaf of its own with the same slots.
fn copy_leaf(leaf: &Arc<Vec<u32>>) -> (slots: Vec<u32>)
    ensures
        slots@ == leaf@,
{
    let mut slots: Vec<u32> = Vec::with_capacity(leaf.len());
    append_leaf(&mut slots, leaf);
    assert(slots@ =~= leaf@);
    slots
}

fn append_leaf(slots: &mut Vec<u32>, leaf: &Arc<Vec<u32>>)
    ensures
        final(slots)@ == old(slots)@ + leaf@,
{
    let ghost before = slots@;
    let mut next: usize = 0;
    proof {
        assert(before =~= before + leaf@.take(0));
    }
    while next < leaf.len()
        invariant
            next <= leaf@.len(),
            slots@ == before + leaf@.take(next as int),
        decreases leaf@.len() - next,
    {
        slots.push(leaf[next]);
        next = next + 1;
        assert(slots@ =~= before + leaf@.take(next as int));
    }
    assert(leaf@.take(leaf@.len() as int) =~= leaf@);
}

/// Ceiling division.
fn div_ceil(value: usize, by: usize) -> (quotient: usize)
    requires
        by > 0,
        value > 0,
    ensures
        quotient > 0,
        (quotient - 1) * by < value <= quotient * by,
{
    let whole = value / by;
    let rest = value % by;
    proof {
        vstd::arithmetic::div_mod::lemma_fundamental_div_mod(value as int, by as int);
        assert(whole * by + by == (whole + 1) * by) by (nonlinear_arith);
        assert(by * whole == whole * by) by (nonlinear_arith);
        assert(rest == 0 ==> whole > 0 && (whole - 1) * by < value) by (nonlinear_arith)
            requires
                by * whole + rest == value,
                value > 0,
                by > 0,
        ;
        assert(whole < usize::MAX || rest == 0) by (nonlinear_arith)
            requires
                by * whole + rest == value,
                rest < by,
                value <= usize::MAX,
        ;
    }
    if rest == 0 {
        whole
    } else {
        whole + 1
    }
}

/// Split leaves that grew too long into leaves of about one length, and join short neighbours.
fn rebalance(blocks: Vec<Arc<Vec<u32>>>) -> (result: Vec<Arc<Vec<u32>>>)
    requires
        filled(blocks@),
    ensures
        leaf_sizes(result@),
        flat(result@) == flat(blocks@),
{
    let mut result: Vec<Arc<Vec<u32>>> = Vec::with_capacity(blocks.len());
    let mut next: usize = 0;
    proof {
        assert(blocks@.take(0) =~= Seq::<Arc<Vec<u32>>>::empty());
    }
    while next < blocks.len()
        invariant
            next <= blocks@.len(),
            filled(blocks@),
            leaf_sizes(result@),
            flat(result@) == flat(blocks@.take(next as int)),
        decreases blocks@.len() - next,
    {
        let leaf = &blocks[next];
        assert(blocks@[next as int]@.len() > 0);
        let ghost held = result@;
        proof {
            lemma_flat_leaf(blocks@, next as int);
        }
        if leaf.len() > LEAF_LENGTH {
            let count = div_ceil(leaf.len(), LEAF_LENGTH);
            let length = div_ceil(leaf.len(), count);
            proof {
                let n = leaf@.len() as int;
                assert(length <= LEAF_LENGTH) by (nonlinear_arith)
                    requires
                        (length - 1) * count < n,
                        n <= count * 4096,
                        count > 0,
                        LEAF_LENGTH == 4096,
                ;
            }
            split_into(leaf, length, &mut result);
        } else {
            let count = result.len();
            let room = count > 0 && result[count - 1].len() + leaf.len() <= LEAF_LENGTH;
            if room {
                let mut joined = copy_leaf(&result[count - 1]);
                append_leaf(&mut joined, leaf);
                let joined = Arc::new(joined);
                result.set(count - 1, joined);
                proof {
                    assert(result@ =~= held.drop_last().push(joined));
                    lemma_flat_push(held.drop_last(), joined);
                    assert(flat(result@) =~= flat(held) + leaf@);
                }
            } else {
                let shared = share(leaf);
                result.push(shared);
                proof {
                    lemma_flat_push(held, shared);
                }
            }
        }
        next = next + 1;
    }
    assert(blocks@.take(next as int) =~= blocks@);
    result
}

impl SlotOrder {
    /// This order without the slots at `removed_ranks`, and with `replacements` put where they
    /// belong. The ranks come back sorted and without repetitions.
    pub fn updated<F: Fn(u32, u32) -> Ordering>(
        &self,
        removed_ranks: &mut Vec<usize>,
        replacements: &[u32],
        compare: F,
    ) -> (order: Self)
        requires
            self.wf(),
            forall|i: int|
                0 <= i < old(removed_ranks)@.len() ==> #[trigger] old(removed_ranks)@[i]
                    < self@.len(),
            self@.len() + replacements@.len() <= usize::MAX,
            forall|a: u32, b: u32| #[trigger] call_requires(compare, (a, b)),
        ensures
            order.wf(),
            order@.to_multiset() == without_ranks(
                self@,
                rank_set(old(removed_ranks)@),
            ).to_multiset().add(replacements@.to_multiset()),
            comparator::in_order(compare, self@) && comparator::in_order(compare, replacements@)
                ==> comparator::in_order(compare, order@),
            replacements@.len() == 0 ==> order@ == without_ranks(
                self@,
                rank_set(old(removed_ranks)@),
            ),
            rank_set(final(removed_ranks)@) == rank_set(old(removed_ranks)@),
            forall|i: int, j: int|
                0 <= i < j < final(removed_ranks)@.len() ==> #[trigger] final(removed_ranks)@[i]
                    < #[trigger] final(removed_ranks)@[j],
    {
        broadcast use vstd::seq_lib::group_to_multiset_ensures;

        let ghost named = removed_ranks@;
        let ghost gone = rank_set(named);
        sort_distinct(removed_ranks);
        proof {
            assert forall|i: int| 0 <= i < removed_ranks@.len() implies #[trigger] removed_ranks@[i]
                < self@.len() by {
                assert(rank_set(removed_ranks@).contains(removed_ranks@[i] + 0));
                assert(gone.contains(removed_ranks@[i] + 0));
                let k = choose|k: int|
                    0 <= k < named.len() && #[trigger] named[k] == removed_ranks@[i] + 0;
                assert(named[k] < self@.len());
            }
        }
        let mut blocks = self.retained(removed_ranks);
        let ghost kept = flat(blocks@);
        proof {
            lemma_without_shrinks(self@, gone);
            if comparator::in_order(compare, self@) {
                lemma_without_sorted(compare, self@, gone);
            }
        }
        if blocks.len() == 0 {
            if replacements.len() > 0 {
                let mut values: Vec<u32> = Vec::new();
                values.extend_from_slice(replacements);
                proof {
                    assert(values@ =~= replacements@);
                    assert(kept =~= Seq::<u32>::empty());
                    assert(values@.to_multiset() =~= kept.to_multiset().add(
                        replacements@.to_multiset(),
                    ));
                }
                return SlotOrder::from_values(values);
            }
        } else {
            insert_into_leaves(&mut blocks, replacements, &compare);
        }
        proof {
            kept.to_multiset_ensures();
            replacements@.to_multiset_ensures();
            flat(blocks@).to_multiset_ensures();
            if replacements@.len() == 0 {
                assert(kept.to_multiset() =~= kept.to_multiset().add(
                    replacements@.to_multiset(),
                ));
            }
        }
        let balanced = rebalance(blocks);
        Self::from_blocks(balanced)
    }
}

} // verus!
