//! Postings: for each key the slots that have it. Copy-on-write posting directories use the
//! same stable 256-way partition as persistence.
use crate::bitmaps;
use crate::sharing::{same_allocation, share, unshared};
use roaring::RoaringBitmap;
use std::sync::Arc;
use vstd::prelude::*;

verus! {

pub const SHARDS: usize = 256;

/// One step of the hash that partitions keys.
pub open spec fn hash_step(hash: u32, byte: u8) -> u32 {
    (hash ^ (byte as u32)).wrapping_mul(16_777_619)
}

/// The hash that partitions keys.
pub open spec fn key_hash(kind: u8, key: Seq<u8>) -> u32
    decreases key.len(),
{
    if key.len() == 0 {
        2_166_136_261u32 ^ (kind as u32)
    } else {
        hash_step(key_hash(kind, key.drop_last()), key.last())
    }
}

/// The directory that a key of some kind belongs to.
pub open spec fn shard_of(kind: u8, key: Seq<u8>) -> int {
    (key_hash(kind, key) >> 24) as int
}

pub fn partition(kind: u8, key: &[u8]) -> (shard: usize)
    ensures
        shard == shard_of(kind, key@),
        shard < SHARDS,
{
    let mut hash: u32 = 2_166_136_261u32 ^ (kind as u32);
    let mut next: usize = 0;
    assert(key@.take(0) =~= Seq::<u8>::empty());
    while next < key.len()
        invariant
            next <= key@.len(),
            hash == key_hash(kind, key@.take(next as int)),
        decreases key@.len() - next,
    {
        let ghost part = key@.take(next + 1);
        assert(part.drop_last() =~= key@.take(next as int));
        assert(part.last() == key@[next as int]);
        hash = (hash ^ (key[next] as u32)).wrapping_mul(16_777_619);
        next = next + 1;
    }
    assert(key@.take(next as int) =~= key@);
    assert(hash >> 24 < 256) by (bit_vector);
    (hash >> 24) as usize
}

/// A key with the slots that have it.
#[derive(Clone)]
pub struct Posting {
    pub key: Vec<u8>,
    pub slots: Arc<RoaringBitmap>,
}

/// What a shared bitmap holds.
pub open spec fn shared_slots(slots: Arc<RoaringBitmap>) -> Set<u32> {
    bitmaps::slots_in(*slots)
}

/// `entries` holds `key` at some place.
pub open spec fn holds_key(entries: Seq<Posting>, key: Seq<u8>) -> bool {
    exists|i: int| 0 <= i < entries.len() && (#[trigger] entries[i]).key@ == key
}

/// Where `entries` holds `key`.
pub open spec fn place_of(entries: Seq<Posting>, key: Seq<u8>) -> int {
    choose|i: int| 0 <= i < entries.len() && (#[trigger] entries[i]).key@ == key
}

/// No key occurs twice.
pub open spec fn distinct_keys(entries: Seq<Posting>) -> bool {
    forall|i: int, j: int|
        0 <= i < j < entries.len() ==> (#[trigger] entries[i]).key@ != (#[trigger] entries[j]).key@
}

/// The slots of each key.
pub open spec fn table(entries: Seq<Posting>) -> Map<Seq<u8>, Set<u32>> {
    Map::new(
        |key: Seq<u8>| holds_key(entries, key),
        |key: Seq<u8>| shared_slots(entries[place_of(entries, key)].slots),
    )
}

/// The slots of a key; none where the key does not occur.
pub open spec fn slots_of(postings: Map<Seq<u8>, Set<u32>>, key: Seq<u8>) -> Set<u32> {
    if postings.dom().contains(key) {
        postings[key]
    } else {
        Set::empty()
    }
}

/// `Arc::make_mut` on a bitmap: the same slots, not shared any more.
#[verifier::external_body]
pub(crate) fn own_slots(slots: &mut Arc<RoaringBitmap>) -> (owned: &mut RoaringBitmap)
    ensures
        bitmaps::slots_in(*owned) == bitmaps::slots_in(**old(slots)),
        **final(slots) == *final(owned),
{
    Arc::make_mut(slots)
}

/// A posting is found under its key.
pub proof fn lemma_place(entries: Seq<Posting>, i: int)
    requires
        distinct_keys(entries),
        0 <= i < entries.len(),
    ensures
        holds_key(entries, entries[i].key@),
        place_of(entries, entries[i].key@) == i,
        table(entries).dom().contains(entries[i].key@),
        table(entries)[entries[i].key@] == shared_slots(entries[i].slots),
{
    let key = entries[i].key@;
    assert(holds_key(entries, key));
    let p = place_of(entries, key);
    if p < i {
        assert(entries[p].key@ != entries[i].key@);
    } else if i < p {
        assert(entries[i].key@ != entries[p].key@);
    }
}

/// Postings with distinct keys.
#[derive(Clone)]
pub struct PostingTable {
    pub entries: Vec<Posting>,
}

impl View for PostingTable {
    type V = Map<Seq<u8>, Set<u32>>;

    open spec fn view(&self) -> Map<Seq<u8>, Set<u32>> {
        table(self.entries@)
    }
}

pub fn same_bytes(a: &[u8], b: &[u8]) -> (same: bool)
    ensures
        same == (a@ == b@),
{
    if a.len() != b.len() {
        return false;
    }
    let mut next: usize = 0;
    while next < a.len()
        invariant
            a@.len() == b@.len(),
            next <= a@.len(),
            forall|i: int| 0 <= i < next ==> a@[i] == b@[i],
        decreases a@.len() - next,
    {
        if a[next] != b[next] {
            return false;
        }
        next = next + 1;
    }
    assert(a@ =~= b@);
    true
}

pub(crate) fn own_key(key: &[u8]) -> (owned: Vec<u8>)
    ensures
        owned@ == key@,
{
    let mut owned: Vec<u8> = Vec::new();
    owned.extend_from_slice(key);
    assert(owned@ =~= key@);
    owned
}

impl PostingTable {
    /// No key occurs twice.
    pub open spec fn wf(&self) -> bool {
        distinct_keys(self.entries@)
    }

    pub fn empty() -> (table: Self)
        ensures
            table.wf(),
            table.entries@.len() == 0,
            table@ == Map::<Seq<u8>, Set<u32>>::empty(),
    {
        let table = PostingTable { entries: Vec::new() };
        assert(table@ =~= Map::<Seq<u8>, Set<u32>>::empty());
        table
    }

    fn find(&self, key: &[u8]) -> (place: Option<usize>)
        requires
            self.wf(),
        ensures
            match place {
                Some(i) => i < self.entries@.len() && self.entries@[i as int].key@ == key@,
                None => !self@.dom().contains(key@),
            },
    {
        let mut next: usize = 0;
        while next < self.entries.len()
            invariant
                next <= self.entries@.len(),
                forall|i: int| 0 <= i < next ==> (#[trigger] self.entries@[i]).key@ != key@,
            decreases self.entries@.len() - next,
        {
            if same_bytes(self.entries[next].key.as_slice(), key) {
                return Some(next);
            }
            next = next + 1;
        }
        None
    }

    /// The slots of a key.
    pub fn get(&self, key: &[u8]) -> (slots: Option<&Arc<RoaringBitmap>>)
        requires
            self.wf(),
        ensures
            match slots {
                Some(found) => self@.dom().contains(key@) && bitmaps::slots_in(**found)
                    == self@[key@],
                None => !self@.dom().contains(key@),
            },
    {
        match self.find(key) {
            Some(place) => {
                proof {
                    lemma_place(self.entries@, place as int);
                }
                Some(&self.entries[place].slots)
            },
            None => None,
        }
    }

    /// Give a key its slots; returns whether it had some before.
    pub fn insert(&mut self, key: &[u8], slots: Arc<RoaringBitmap>) -> (replaced: bool)
        requires
            old(self).wf(),
        ensures
            final(self).wf(),
            final(self)@ == old(self)@.insert(key@, shared_slots(slots)),
            replaced == old(self)@.dom().contains(key@),
    {
        let ghost before = self.entries@;
        let ghost added = shared_slots(slots);
        match self.find(key) {
            Some(place) => {
                let kept = own_key(key);
                self.entries.set(place, Posting { key: kept, slots });
                proof {
                    lemma_place(before, place as int);
                    lemma_changed(before, self.entries@, place as int, added);
                }
                true
            },
            None => {
                let kept = own_key(key);
                let posting = Posting { key: kept, slots };
                self.entries.push(posting);
                proof {
                    lemma_added(before, posting);
                }
                false
            },
        }
    }

    /// Forget a key; returns whether it was there.
    pub fn remove(&mut self, key: &[u8]) -> (removed: bool)
        requires
            old(self).wf(),
        ensures
            final(self).wf(),
            final(self)@ == old(self)@.remove(key@),
            removed == old(self)@.dom().contains(key@),
    {
        let ghost before = self.entries@;
        match self.find(key) {
            Some(place) => {
                self.entries.swap_remove(place);
                proof {
                    lemma_place(before, place as int);
                    lemma_removed(before, self.entries@, place as int);
                }
                true
            },
            None => {
                assert(self@ =~= self@.remove(key@));
                false
            },
        }
    }

    /// Add a slot to a key.
    pub fn add_slot(&mut self, key: &[u8], slot: u32)
        requires
            old(self).wf(),
        ensures
            final(self).wf(),
            final(self)@ == old(self)@.insert(key@, slots_of(old(self)@, key@).insert(slot)),
    {
        let ghost before = self.entries@;
        match self.find(key) {
            Some(place) => {
                proof {
                    lemma_place(before, place as int);
                }
                let posting = &mut self.entries[place];
                let bitmap = own_slots(&mut posting.slots);
                bitmap.insert(slot);
                proof {
                    lemma_changed(
                        before,
                        self.entries@,
                        place as int,
                        slots_of(table(before), key@).insert(slot),
                    );
                }
            },
            None => {
                let mut bitmap = RoaringBitmap::new();
                bitmap.insert(slot);
                let kept = own_key(key);
                let posting = Posting { key: kept, slots: Arc::new(bitmap) };
                self.entries.push(posting);
                proof {
                    lemma_added(before, posting);
                }
            },
        }
    }

    /// Take a slot from a key, and forget a key that is left without slots.
    pub fn remove_slot(&mut self, key: &[u8], slot: u32)
        requires
            old(self).wf(),
        ensures
            final(self).wf(),
            final(self)@ == without_slot(old(self)@, key@, slot),
    {
        let ghost before = self.entries@;
        match self.find(key) {
            Some(place) => {
                proof {
                    lemma_place(before, place as int);
                }
                let posting = &mut self.entries[place];
                let bitmap = own_slots(&mut posting.slots);
                bitmap.remove(slot);
                let emptied = bitmap.is_empty();
                let ghost changed = self.entries@;
                proof {
                    lemma_changed(
                        before,
                        changed,
                        place as int,
                        table(before)[key@].remove(slot),
                    );
                }
                if emptied {
                    self.entries.swap_remove(place);
                    proof {
                        lemma_removed(changed, self.entries@, place as int);
                        assert(table(changed).remove(key@) =~= table(before).remove(key@));
                    }
                }
            },
            None => {},
        }
    }
}

/// Postings with a slot taken from a key.
pub open spec fn without_slot(
    postings: Map<Seq<u8>, Set<u32>>,
    key: Seq<u8>,
    slot: u32,
) -> Map<Seq<u8>, Set<u32>> {
    if !postings.dom().contains(key) {
        postings
    } else if postings[key].remove(slot) == Set::<u32>::empty() {
        postings.remove(key)
    } else {
        postings.insert(key, postings[key].remove(slot))
    }
}

/// One posting has other slots.
proof fn lemma_changed(before: Seq<Posting>, after: Seq<Posting>, place: int, slots: Set<u32>)
    requires
        distinct_keys(before),
        0 <= place < before.len(),
        after.len() == before.len(),
        after[place].key@ == before[place].key@,
        shared_slots(after[place].slots) == slots,
        forall|i: int| 0 <= i < before.len() && i != place ==> after[i] == before[i],
    ensures
        distinct_keys(after),
        table(after) == table(before).insert(before[place].key@, slots),
{
    assert(distinct_keys(after));
    let (old_table, new_table) = (table(before), table(after));
    let key = before[place].key@;
    assert forall|k: Seq<u8>| #[trigger]
        new_table.dom().contains(k) == old_table.insert(key, slots).dom().contains(k) by {
        if holds_key(after, k) {
            let i = place_of(after, k);
            assert(before[i].key@ == k);
        }
        if holds_key(before, k) {
            let i = place_of(before, k);
            assert(after[i].key@ == k);
        }
        lemma_place(before, place);
    }
    assert forall|k: Seq<u8>| new_table.dom().contains(k) implies #[trigger] new_table[k]
        == old_table.insert(key, slots)[k] by {
        let i = place_of(after, k);
        lemma_place(after, i);
        lemma_place(before, i);
    }
    assert(new_table =~= old_table.insert(key, slots));
}

/// One posting more.
pub proof fn lemma_added(before: Seq<Posting>, posting: Posting)
    requires
        distinct_keys(before),
        !holds_key(before, posting.key@),
    ensures
        distinct_keys(before.push(posting)),
        table(before.push(posting)) == table(before).insert(
            posting.key@,
            shared_slots(posting.slots),
        ),
{
    let after = before.push(posting);
    assert(distinct_keys(after)) by {
        assert forall|i: int, j: int| 0 <= i < j < after.len() implies (#[trigger] after[i]).key@
            != (#[trigger] after[j]).key@ by {
            if j == before.len() {
                assert(before[i].key@ != posting.key@);
            }
        }
    }
    let (old_table, new_table) = (table(before), table(after));
    let added = old_table.insert(posting.key@, shared_slots(posting.slots));
    lemma_place(after, before.len() as int);
    assert forall|k: Seq<u8>| #[trigger] new_table.dom().contains(k) == added.dom().contains(k) by {
        if holds_key(after, k) {
            let i = place_of(after, k);
            if i < before.len() {
                assert(before[i].key@ == k);
            }
        }
        if holds_key(before, k) {
            let i = place_of(before, k);
            assert(after[i].key@ == k);
        }
    }
    assert forall|k: Seq<u8>| new_table.dom().contains(k) implies #[trigger] new_table[k]
        == added[k] by {
        let i = place_of(after, k);
        lemma_place(after, i);
        if i < before.len() {
            lemma_place(before, i);
        }
    }
    assert(new_table =~= added);
}

/// One posting less; the last one took its place.
proof fn lemma_removed(before: Seq<Posting>, after: Seq<Posting>, place: int)
    requires
        distinct_keys(before),
        0 <= place < before.len(),
        after == before.update(place, before.last()).drop_last(),
    ensures
        distinct_keys(after),
        table(after) == table(before).remove(before[place].key@),
{
    let last = before.len() - 1;
    assert forall|i: int| 0 <= i < after.len() implies #[trigger] after[i] == before[if i == place {
        last
    } else {
        i
    }] by {}
    assert(distinct_keys(after)) by {
        assert forall|i: int, j: int| 0 <= i < j < after.len() implies (#[trigger] after[i]).key@
            != (#[trigger] after[j]).key@ by {
            let x = if i == place {
                last
            } else {
                i
            };
            let y = if j == place {
                last
            } else {
                j
            };
            if x < y {
                assert(before[x].key@ != before[y].key@);
            } else {
                assert(before[y].key@ != before[x].key@);
            }
        }
    }
    let (old_table, new_table) = (table(before), table(after));
    let removed = old_table.remove(before[place].key@);
    lemma_place(before, place);
    assert forall|k: Seq<u8>| #[trigger]
        new_table.dom().contains(k) == removed.dom().contains(k) by {
        if holds_key(after, k) {
            let i = place_of(after, k);
            let x = if i == place {
                last
            } else {
                i
            };
            assert(before[x].key@ == k);
            lemma_place(before, x);
            if k == before[place].key@ {
                assert(x == place);
            }
        }
        if holds_key(before, k) && k != before[place].key@ {
            let i = place_of(before, k);
            if i == last {
                assert(after[place].key@ == k);
            } else {
                assert(after[i].key@ == k);
            }
        }
    }
    assert forall|k: Seq<u8>| new_table.dom().contains(k) implies #[trigger] new_table[k]
        == removed[k] by {
        let i = place_of(after, k);
        lemma_place(after, i);
        let x = if i == place {
            last
        } else {
            i
        };
        lemma_place(before, x);
    }
    assert(new_table =~= removed);
}

/// Tables with the same keys in the same places and the same slots are the same.
proof fn lemma_copied(before: Seq<Posting>, after: Seq<Posting>)
    requires
        distinct_keys(before),
        before.len() == after.len(),
        forall|i: int|
            0 <= i < before.len() ==> (#[trigger] after[i]).key@ == before[i].key@
                && after[i].slots == before[i].slots,
    ensures
        distinct_keys(after),
        table(after) == table(before),
{
    assert(distinct_keys(after)) by {
        assert forall|i: int, j: int| 0 <= i < j < after.len() implies (#[trigger] after[i]).key@
            != (#[trigger] after[j]).key@ by {
            assert(before[i].key@ != before[j].key@);
        }
    }
    let (old_table, new_table) = (table(before), table(after));
    assert forall|k: Seq<u8>| #[trigger]
        new_table.dom().contains(k) == old_table.dom().contains(k) by {
        if holds_key(after, k) {
            let i = place_of(after, k);
            assert(before[i].key@ == k);
        }
        if holds_key(before, k) {
            let i = place_of(before, k);
            assert(after[i].key@ == k);
        }
    }
    assert forall|k: Seq<u8>| new_table.dom().contains(k) implies #[trigger] new_table[k]
        == old_table[k] by {
        let i = place_of(after, k);
        lemma_place(after, i);
        lemma_place(before, i);
    }
    assert(new_table =~= old_table);
}

impl PostingTable {
    /// A table of its own with the same postings; their slots stay shared.
    pub fn copy(&self) -> (copy: Self)
        requires
            self.wf(),
        ensures
            copy.wf(),
            copy@ == self@,
    {
        let mut entries: Vec<Posting> = Vec::with_capacity(self.entries.len());
        let mut next: usize = 0;
        while next < self.entries.len()
            invariant
                next <= self.entries@.len(),
                entries@.len() == next,
                forall|i: int|
                    0 <= i < next ==> (#[trigger] entries@[i]).key@ == self.entries@[i].key@
                        && entries@[i].slots == self.entries@[i].slots,
            decreases self.entries@.len() - next,
        {
            let key = own_key(self.entries[next].key.as_slice());
            let slots = share(&self.entries[next].slots);
            entries.push(Posting { key, slots });
            next = next + 1;
        }
        proof {
            lemma_copied(self.entries@, entries@);
        }
        PostingTable { entries }
    }
}

/// Postings of one kind of key in 256 directories.
pub struct PostingMap {
    pub kind: u8,
    pub shards: Vec<Arc<PostingTable>>,
}

/// The postings of a directory.
pub open spec fn shard_view(shard: Arc<PostingTable>) -> Map<Seq<u8>, Set<u32>> {
    table(shard.entries@)
}

impl View for PostingMap {
    type V = Map<Seq<u8>, Set<u32>>;

    open spec fn view(&self) -> Map<Seq<u8>, Set<u32>> {
        Map::new(
            |key: Seq<u8>| shard_view(self.shards@[shard_of(self.kind, key)]).dom().contains(key),
            |key: Seq<u8>| shard_view(self.shards@[shard_of(self.kind, key)])[key],
        )
    }
}

proof fn lemma_shard_bound(kind: u8, key: Seq<u8>)
    ensures
        0 <= shard_of(kind, key) < SHARDS,
{
    let hash = key_hash(kind, key);
    assert(hash >> 24 < 256) by (bit_vector);
}

impl PostingMap {
    /// There are 256 directories, and a key occurs only in the directory that it belongs to,
    /// once.
    pub open spec fn wf(&self) -> bool {
        &&& self.shards@.len() == SHARDS
        &&& forall|i: int|
            #![trigger self.shards@[i]]
            0 <= i < SHARDS ==> distinct_keys(self.shards@[i].entries@)
        &&& forall|i: int, key: Seq<u8>|
            0 <= i < SHARDS && #[trigger] shard_view(self.shards@[i]).dom().contains(key)
                ==> shard_of(self.kind, key) == i
    }

    /// The bitmap that is kept for a key.
    pub open spec fn bitmap_of(&self, key: Seq<u8>) -> RoaringBitmap {
        let entries = self.shards@[shard_of(self.kind, key)].entries@;
        *entries[place_of(entries, key)].slots
    }

    /// A map without postings.
    pub fn new(kind: u8) -> (map: Self)
        ensures
            map.wf(),
            map.kind == kind,
            map@ == Map::<Seq<u8>, Set<u32>>::empty(),
    {
        let empty = Arc::new(PostingTable::empty());
        let mut shards: Vec<Arc<PostingTable>> = Vec::with_capacity(SHARDS);
        while shards.len() < SHARDS
            invariant
                shards@.len() <= SHARDS,
                empty.entries@.len() == 0,
                forall|i: int| 0 <= i < shards@.len() ==> #[trigger] shards@[i] == empty,
            decreases SHARDS - shards@.len(),
        {
            shards.push(share(&empty));
        }
        let map = PostingMap { kind, shards };
        proof {
            assert forall|key: Seq<u8>| !#[trigger] map@.dom().contains(key) by {
                lemma_shard_bound(kind, key);
            }
            assert(map@ =~= Map::<Seq<u8>, Set<u32>>::empty());
        }
        map
    }

    /// The slots of a key.
    pub fn get(&self, key: &[u8]) -> (slots: Option<&Arc<RoaringBitmap>>)
        requires
            self.wf(),
        ensures
            match slots {
                Some(found) => self@.dom().contains(key@) && bitmaps::slots_in(**found)
                    == self@[key@],
                None => !self@.dom().contains(key@),
            },
    {
        let shard = partition(self.kind, key);
        self.shards[shard].get(key)
    }

    /// Give a key its slots; returns whether it had some before.
    pub fn insert(&mut self, key: &[u8], slots: Arc<RoaringBitmap>) -> (replaced: bool)
        requires
            old(self).wf(),
        ensures
            final(self).wf(),
            final(self).kind == old(self).kind,
            final(self)@ == old(self)@.insert(key@, shared_slots(slots)),
            replaced == old(self)@.dom().contains(key@),
    {
        let ghost before = *self;
        let ghost added = shared_slots(slots);
        let shard = partition(self.kind, key);
        let mut changed = self.shards[shard].copy();
        let replaced = changed.insert(key, slots);
        let changed = Arc::new(changed);
        self.shards.set(shard, changed);
        proof {
            lemma_shard_replaced(before, *self, key@, before@.insert(key@, added));
        }
        replaced
    }

    /// Forget a key; returns whether it was there. A directory without the key stays shared.
    pub fn remove(&mut self, key: &[u8]) -> (removed: bool)
        requires
            old(self).wf(),
        ensures
            final(self).wf(),
            final(self).kind == old(self).kind,
            final(self)@ == old(self)@.remove(key@),
            removed == old(self)@.dom().contains(key@),
    {
        let ghost before = *self;
        let shard = partition(self.kind, key);
        if self.shards[shard].get(key).is_none() {
            assert(self@ =~= self@.remove(key@));
            return false;
        }
        let mut changed = self.shards[shard].copy();
        changed.remove(key);
        let changed = Arc::new(changed);
        self.shards.set(shard, changed);
        proof {
            lemma_shard_replaced(before, *self, key@, before@.remove(key@));
        }
        true
    }

    /// Add a slot to a key.
    pub fn add_slot(&mut self, key: &[u8], slot: u32)
        requires
            old(self).wf(),
        ensures
            final(self).wf(),
            final(self).kind == old(self).kind,
            final(self)@ == old(self)@.insert(key@, slots_of(old(self)@, key@).insert(slot)),
    {
        let ghost before = *self;
        let shard = partition(self.kind, key);
        match unshared(&mut self.shards[shard]) {
            Some(own) => {
                own.add_slot(key, slot);
            },
            None => {
                let mut changed = self.shards[shard].copy();
                changed.add_slot(key, slot);
                let changed = Arc::new(changed);
                self.shards.set(shard, changed);
            },
        }
        proof {
            lemma_shard_replaced(
                before,
                *self,
                key@,
                before@.insert(key@, slots_of(before@, key@).insert(slot)),
            );
        }
    }

    /// Take a slot from a key, and forget a key that is left without slots.
    pub fn remove_slot(&mut self, key: &[u8], slot: u32)
        requires
            old(self).wf(),
        ensures
            final(self).wf(),
            final(self).kind == old(self).kind,
            final(self)@ == without_slot(old(self)@, key@, slot),
    {
        let ghost before = *self;
        let shard = partition(self.kind, key);
        if self.shards[shard].get(key).is_none() {
            return;
        }
        match unshared(&mut self.shards[shard]) {
            Some(own) => {
                own.remove_slot(key, slot);
            },
            None => {
                let mut changed = self.shards[shard].copy();
                changed.remove_slot(key, slot);
                let changed = Arc::new(changed);
                self.shards.set(shard, changed);
            },
        }
        proof {
            lemma_shard_replaced(before, *self, key@, without_slot(before@, key@, slot));
        }
    }

    /// Asked whether the directories of two maps at a place are one allocation, the answer was
    /// `same`.
    pub closed spec fn partition_compared(&self, other: &Self, shard: int, same: bool) -> bool {
        call_ensures(
            same_allocation::<PostingTable>,
            (&self.shards@[shard], &other.shards@[shard]),
            same,
        )
    }

    /// Asked of every directory of two maps of one kind, the answer was that it is one allocation;
    /// or that it is not, of some directory, or the kinds differ.
    pub open spec fn all_compared(&self, other: &Self, same: bool) -> bool {
        if same {
            self.kind == other.kind && forall|shard: int|
                0 <= shard < SHARDS ==> #[trigger] self.partition_compared(other, shard, true)
        } else {
            self.kind != other.kind || exists|shard: int|
                0 <= shard < SHARDS && #[trigger] self.partition_compared(other, shard, false)
        }
    }

    /// Whether two maps hold one and the same directory, which then has the same postings.
    pub fn shares_partition(&self, other: &Self, shard: usize) -> (shared: bool)
        requires
            shard < self.shards@.len(),
            shard < other.shards@.len(),
        ensures
            shared ==> shard_view(self.shards@[shard as int]) == shard_view(
                other.shards@[shard as int],
            ),
            self.partition_compared(other, shard as int, shared),
    {
        same_allocation(&self.shards[shard], &other.shards[shard])
    }

    /// Whether two maps share every directory.
    pub fn shares_all(&self, other: &Self) -> (shared: bool)
        requires
            self.wf(),
            other.wf(),
        ensures
            shared ==> self.kind == other.kind && self@ == other@,
            self.all_compared(other, shared),
    {
        if self.kind != other.kind {
            return false;
        }
        let mut next: usize = 0;
        while next < SHARDS
            invariant
                next <= SHARDS,
                self.wf(),
                other.wf(),
                forall|i: int|
                    0 <= i < next ==> shard_view(#[trigger] self.shards@[i]) == shard_view(
                        other.shards@[i],
                    ),
                self.kind == other.kind,
                forall|i: int| 0 <= i < next ==> #[trigger] self.partition_compared(other, i, true),
            decreases SHARDS - next,
        {
            if !self.shares_partition(other, next) {
                return false;
            }
            next = next + 1;
        }
        proof {
            assert forall|key: Seq<u8>|
                #[trigger] shard_view(self.shards@[shard_of(self.kind, key)]) == shard_view(
                other.shards@[shard_of(other.kind, key)],
            ) by {
                lemma_shard_bound(self.kind, key);
                assert(self.shards@[shard_of(self.kind, key)] == self.shards@[shard_of(
                    self.kind,
                    key,
                )]);
            }
            assert forall|key: Seq<u8>| #[trigger] self@.dom().contains(key)
                == other@.dom().contains(key) by {
                assert(shard_view(self.shards@[shard_of(self.kind, key)]) == shard_view(
                    other.shards@[shard_of(other.kind, key)],
                ));
            }
            assert(self@.dom() =~= other@.dom());
            assert forall|key: Seq<u8>| #[trigger] self@.dom().contains(key) implies self@[key]
                == other@[key] by {
                assert(shard_view(self.shards@[shard_of(self.kind, key)]) == shard_view(
                    other.shards@[shard_of(other.kind, key)],
                ));
            }
            assert(self@ =~= other@);
        }
        true
    }

    /// Another map with the same postings, sharing every directory.
    pub fn copy(&self) -> (copy: Self)
        requires
            self.wf(),
        ensures
            copy.wf(),
            copy.kind == self.kind,
            copy@ == self@,
    {
        let mut shards: Vec<Arc<PostingTable>> = Vec::with_capacity(SHARDS);
        let mut next: usize = 0;
        while next < self.shards.len()
            invariant
                next <= self.shards@.len(),
                shards@ == self.shards@.take(next as int),
            decreases self.shards@.len() - next,
        {
            shards.push(share(&self.shards[next]));
            next = next + 1;
            assert(shards@ =~= self.shards@.take(next as int));
        }
        assert(shards@ =~= self.shards@);
        let copy = PostingMap { kind: self.kind, shards };
        assert(copy@ =~= self@);
        copy
    }
}

/// The postings of the directories before one, and the first ones of that directory.
pub open spec fn listed_up_to(map: PostingMap, shard: int, end: int, list: Seq<Posting>) -> bool {
    &&& distinct_keys(list)
    &&& forall|i: int|
        0 <= i < list.len() ==> map@.dom().contains((#[trigger] list[i]).key@) && shared_slots(
            list[i].slots,
        ) == map@[list[i].key@] && *list[i].slots == map.bitmap_of(list[i].key@)
    &&& forall|i: int|
        0 <= i < list.len() ==> {
            let own = shard_of(map.kind, (#[trigger] list[i]).key@);
            own < shard || own == shard && exists|k: int|
                0 <= k < end && (#[trigger] map.shards@[shard].entries@[k]).key@ == list[i].key@
        }
    &&& forall|t: int, k: int|
        #![trigger map.shards@[t].entries@[k]]
        0 <= t < SHARDS && 0 <= k < map.shards@[t].entries@.len() && (t < shard || t == shard && k
            < end) ==> holds_key(list, map.shards@[t].entries@[k].key@)
}

proof fn lemma_listed(map: PostingMap, shard: int, end: int, list: Seq<Posting>, more: Posting)
    requires
        map.wf(),
        0 <= shard < SHARDS,
        0 <= end < map.shards@[shard].entries@.len(),
        listed_up_to(map, shard, end, list),
        more.key@ == map.shards@[shard].entries@[end].key@,
        more.slots == map.shards@[shard].entries@[end].slots,
    ensures
        listed_up_to(map, shard, end + 1, list.push(more)),
{
    let entries = map.shards@[shard].entries@;
    let after = list.push(more);
    lemma_place(entries, end);
    assert(shard_view(map.shards@[shard]).dom().contains(more.key@));
    assert(shard_of(map.kind, more.key@) == shard);
    assert(!holds_key(list, more.key@)) by {
        if holds_key(list, more.key@) {
            let i = choose|i: int| 0 <= i < list.len() && (#[trigger] list[i]).key@ == more.key@;
            let k = choose|k: int|
                0 <= k < end && (#[trigger] map.shards@[shard].entries@[k]).key@ == list[i].key@;
            assert(entries[k].key@ != entries[end].key@);
        }
    }
    lemma_added(list, more);
    assert forall|i: int| 0 <= i < after.len() implies map@.dom().contains(
        (#[trigger] after[i]).key@,
    ) && shared_slots(after[i].slots) == map@[after[i].key@] && *after[i].slots == map.bitmap_of(
        after[i].key@,
    ) by {
        if i < list.len() {
            assert(after[i] == list[i]);
        }
    }
    assert forall|i: int| 0 <= i < after.len() implies ({
        let own = shard_of(map.kind, (#[trigger] after[i]).key@);
        own < shard || own == shard && exists|k: int|
            0 <= k < end + 1 && (#[trigger] map.shards@[shard].entries@[k]).key@ == after[i].key@
    }) by {
        if i < list.len() {
            assert(after[i] == list[i]);
        } else {
            assert(map.shards@[shard].entries@[end].key@ == after[i].key@);
        }
    }
    assert forall|t: int, k: int|
        #![trigger map.shards@[t].entries@[k]]
        0 <= t < SHARDS && 0 <= k < map.shards@[t].entries@.len() && (t < shard || t == shard && k
            < end + 1) implies holds_key(after, map.shards@[t].entries@[k].key@) by {
        let key = map.shards@[t].entries@[k].key@;
        if t == shard && k == end {
            assert(after[list.len() as int].key@ == key);
        } else {
            assert(holds_key(list, key));
            let i = choose|i: int| 0 <= i < list.len() && (#[trigger] list[i]).key@ == key;
            assert(after[i].key@ == key);
        }
    }
}

impl PostingMap {
    /// All postings, in no order that counts.
    pub fn postings(&self) -> (list: Vec<Posting>)
        requires
            self.wf(),
        ensures
            distinct_keys(list@),
            table(list@) == self@,
            forall|i: int|
                0 <= i < list@.len() ==> *(#[trigger] list@[i]).slots == self.bitmap_of(
                    list@[i].key@,
                ),
    {
        let mut list: Vec<Posting> = Vec::new();
        let mut shard: usize = 0;
        while shard < SHARDS
            invariant
                self.wf(),
                shard <= SHARDS,
                listed_up_to(*self, shard as int, 0, list@),
            decreases SHARDS - shard,
        {
            let entries = &self.shards[shard].entries;
            let mut next: usize = 0;
            while next < entries.len()
                invariant
                    self.wf(),
                    shard < SHARDS,
                    next <= entries@.len(),
                    *entries == self.shards@[shard as int].entries,
                    listed_up_to(*self, shard as int, next as int, list@),
                decreases entries@.len() - next,
            {
                let kept = Posting {
                    key: own_key(entries[next].key.as_slice()),
                    slots: share(&entries[next].slots),
                };
                proof {
                    lemma_listed(*self, shard as int, next as int, list@, kept);
                }
                list.push(kept);
                next = next + 1;
            }
            shard = shard + 1;
        }
        proof {
            assert forall|key: Seq<u8>| #[trigger] table(list@).dom().contains(key)
                == self@.dom().contains(key) by {
                if holds_key(list@, key) {
                    let i = choose|i: int| 0 <= i < list@.len() && (#[trigger] list@[i]).key@ == key;
                    assert(self@.dom().contains(list@[i].key@));
                }
                if self@.dom().contains(key) {
                    lemma_shard_bound(self.kind, key);
                    let t = shard_of(self.kind, key);
                    let entries = self.shards@[t].entries@;
                    assert(holds_key(entries, key));
                    let k = choose|k: int| 0 <= k < entries.len() && (#[trigger] entries[k]).key@ == key;
                    assert(holds_key(list@, self.shards@[t].entries@[k].key@));
                }
            }
            assert forall|key: Seq<u8>| #[trigger] table(list@).dom().contains(key) implies table(
                list@,
            )[key] == self@[key] by {
                let i = choose|i: int| 0 <= i < list@.len() && (#[trigger] list@[i]).key@ == key;
                lemma_place(list@, i);
            }
            assert(table(list@) =~= self@);
        }
        list
    }
}

/// A change of one key in its directory is a change of that key in the map.
proof fn lemma_shard_replaced(
    before: PostingMap,
    after: PostingMap,
    key: Seq<u8>,
    expected: Map<Seq<u8>, Set<u32>>,
)
    requires
        before.wf(),
        after.kind == before.kind,
        after.shards@.len() == SHARDS,
        ({
            let shard = shard_of(before.kind, key);
            &&& distinct_keys(after.shards@[shard].entries@)
            &&& forall|i: int|
                #![trigger after.shards@[i]]
                0 <= i < SHARDS && i != shard ==> after.shards@[i] == before.shards@[i]
            &&& forall|k: Seq<u8>|
                k != key ==> (#[trigger] shard_view(after.shards@[shard]).dom().contains(k)
                    == shard_view(before.shards@[shard]).dom().contains(k))
            &&& forall|k: Seq<u8>|
                k != key && shard_view(before.shards@[shard]).dom().contains(k)
                    ==> #[trigger] shard_view(after.shards@[shard])[k] == shard_view(
                    before.shards@[shard],
                )[k]
            &&& expected.dom().contains(key) == shard_view(after.shards@[shard]).dom().contains(key)
            &&& expected.dom().contains(key) ==> expected[key] == shard_view(
                after.shards@[shard],
            )[key]
        }),
        forall|k: Seq<u8>|
            k != key ==> (#[trigger] expected.dom().contains(k) == before@.dom().contains(k)),
        forall|k: Seq<u8>|
            k != key && before@.dom().contains(k) ==> #[trigger] expected[k] == before@[k],
    ensures
        after.wf(),
        after@ == expected,
{
    let shard = shard_of(before.kind, key);
    lemma_shard_bound(before.kind, key);
    assert forall|i: int|
        #![trigger after.shards@[i]]
        0 <= i < SHARDS implies distinct_keys(after.shards@[i].entries@) by {
        if i != shard {
            assert(after.shards@[i] == before.shards@[i]);
            assert(distinct_keys(before.shards@[i].entries@));
        }
    }
    assert forall|i: int, k: Seq<u8>|
        0 <= i < SHARDS && #[trigger] shard_view(after.shards@[i]).dom().contains(k) implies shard_of(
        after.kind,
        k,
    ) == i by {
        if k != key || i != shard {
            assert(shard_view(before.shards@[i]).dom().contains(k));
        }
    }
    assert forall|k: Seq<u8>| #[trigger]
        after@.dom().contains(k) == expected.dom().contains(k) by {
        lemma_shard_bound(before.kind, k);
        if k != key {
            let other = shard_of(before.kind, k);
            assert(after@.dom().contains(k) == shard_view(after.shards@[other]).dom().contains(k));
            assert(before@.dom().contains(k) == shard_view(before.shards@[other]).dom().contains(k));
        }
    }
    assert forall|k: Seq<u8>| after@.dom().contains(k) implies #[trigger] after@[k]
        == expected[k] by {
        lemma_shard_bound(before.kind, k);
        if k != key {
            let other = shard_of(before.kind, k);
            assert(before@.dom().contains(k));
            assert(after@[k] == shard_view(after.shards@[other])[k]);
            assert(before@[k] == shard_view(before.shards@[other])[k]);
        }
    }
    assert(after@ =~= expected);
}

} // verus!
