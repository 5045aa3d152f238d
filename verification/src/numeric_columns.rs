//! Numbers of rows in blocks with bounds: a query passes over blocks that cannot match, and takes
//! whole those that must.
use crate::bitmaps;
use crate::cancellation;
use crate::bitmaps::{copy_bitmap, intersect, slot_list, subtract};
use crate::files::IndexedFile;
use crate::posting_map::own_slots;
use crate::query::evaluate;
use crate::query::model::{NumberBounds, Term, TermView};
use crate::text::same_text;
use roaring::RoaringBitmap;
use std::sync::Arc;
use vstd::prelude::*;

verus! {

/// So many rows make a block.
pub const BLOCK_ENTRIES: usize = 4096;

/// The bounds of the known numbers of a block. A block without any has bounds that are the
/// wrong way round.
#[derive(Clone, Copy, Debug)]
pub struct Block {
    pub minimum: i128,
    pub maximum: i128,
}

/// A number of a row.
#[derive(Clone, Copy, Debug, PartialEq, Eq, Structural)]
pub enum NumericField {
    Size,
    Modified,
    Created,
}

/// The number of a row; the size of a directory is unknown.
pub open spec fn value_of(file: IndexedFile, field: NumericField) -> Option<int> {
    match field {
        NumericField::Size => if file.is_dir {
            None
        } else {
            Some(file.size as int)
        },
        NumericField::Modified => Some(file.modified as int),
        NumericField::Created => Some(file.created as int),
    }
}

fn value(file: &IndexedFile, field: NumericField) -> (number: Option<i128>)
    ensures
        value_of(*file, field) == (match number {
            Some(number) => Some(number as int),
            None => None,
        }),
        number matches Some(found) ==> i64::MIN <= found <= u64::MAX,
{
    match field {
        NumericField::Size => if file.is_dir {
            None
        } else {
            Some(file.size as i128)
        },
        NumericField::Modified => Some(file.modified as i128),
        NumericField::Created => Some(file.created as i128),
    }
}

/// The rows of a block.
pub open spec fn in_block(slot: int, index: int) -> bool {
    index * BLOCK_ENTRIES <= slot < (index + 1) * BLOCK_ENTRIES
}

/// All known numbers of the rows of a block from a place on lie within its bounds.
pub open spec fn bounds(
    block: Block,
    rows: Seq<IndexedFile>,
    field: NumericField,
    index: int,
    end: int,
) -> bool {
    forall|slot: int|
        0 <= slot < end && slot < rows.len() && #[trigger] in_block(slot, index) ==> (value_of(
            rows[slot],
            field,
        ) matches Some(number) ==> block.minimum <= number <= block.maximum)
}

fn empty_block() -> (block: Block)
    ensures
        block.minimum == i128::MAX,
        block.maximum == i128::MIN,
{
    Block { minimum: i128::MAX, maximum: i128::MIN }
}

fn widened(block: Block, number: Option<i128>) -> (wider: Block)
    ensures
        wider.minimum <= block.minimum,
        wider.maximum >= block.maximum,
        number matches Some(found) ==> wider.minimum <= found <= wider.maximum,
        number is None ==> wider == block,
        number matches Some(found) ==> (wider.minimum == block.minimum || wider.minimum == found)
            && (wider.maximum == block.maximum || wider.maximum == found),
{
    match number {
        Some(found) => Block {
            minimum: if found < block.minimum {
                found
            } else {
                block.minimum
            },
            maximum: if found > block.maximum {
                found
            } else {
                block.maximum
            },
        },
        None => block,
    }
}

/// One number of all rows.
pub struct Column {
    pub field: NumericField,
    pub blocks: Vec<Block>,
    /// The slots whose number is known.
    pub known: Arc<RoaringBitmap>,
    pub length: usize,
    /// Blocks whose bounds are out of date.
    pub dirty: RoaringBitmap,
}

/// The slots whose number is known.
pub open spec fn known_slots(rows: Seq<IndexedFile>, field: NumericField) -> Set<u32> {
    Set::new(|slot: u32| slot < rows.len() && value_of(rows[slot as int], field) is Some)
}

/// So many blocks hold so many rows.
pub open spec fn block_count(length: int) -> int {
    (length + BLOCK_ENTRIES - 1) / BLOCK_ENTRIES as int
}

impl Column {
    /// The column is that of some rows, but for the bounds of dirty blocks.
    pub open spec fn nearly_describes(&self, rows: Seq<IndexedFile>) -> bool {
        &&& self.length == rows.len()
        &&& rows.len() <= u32::MAX
        &&& self.blocks@.len() == block_count(rows.len() as int)
        &&& bitmaps::slots_in(*self.known) == known_slots(rows, self.field)
        &&& forall|i: int|
            0 <= i < self.blocks@.len() && !bitmaps::slots_in(self.dirty).contains(i as u32)
                ==> bounds(#[trigger] self.blocks@[i], rows, self.field, i, rows.len() as int)
    }

    /// The column is that of some rows.
    pub open spec fn describes(&self, rows: Seq<IndexedFile>) -> bool {
        self.nearly_describes(rows) && bitmaps::slots_in(self.dirty) == Set::<u32>::empty()
    }

    pub fn new(field: NumericField) -> (column: Self)
        ensures
            column.field == field,
            column.describes(Seq::empty()),
    {
        let column = Column {
            field,
            blocks: Vec::new(),
            known: Arc::new(RoaringBitmap::new()),
            length: 0,
            dirty: RoaringBitmap::new(),
        };
        assert(bitmaps::slots_in(*column.known) =~= known_slots(Seq::empty(), field));
        column
    }

    /// Add the number of one more row.
    pub fn push(&mut self, file: &IndexedFile)
        requires
            old(self).length < u32::MAX,
        ensures
            final(self).field == old(self).field,
            forall|rows: Seq<IndexedFile>| #[trigger]
                old(self).nearly_describes(rows) ==> final(self).nearly_describes(
                    rows.push(*file),
                ),
            final(self).dirty == old(self).dirty,
            final(self).length == old(self).length + 1,
    {
        let ghost before = *self;
        let number = value(file, self.field);
        if self.length % BLOCK_ENTRIES == 0 {
            self.blocks.push(widened(empty_block(), number));
        } else {
            let count = self.blocks.len();
            if count > 0 {
                let last = self.blocks[count - 1];
                self.blocks.set(count - 1, widened(last, number));
            }
        }
        if number.is_some() {
            let slot: u32 = self.length as u32;
            let known = own_slots(&mut self.known);
            known.insert(slot);
        }
        self.length = self.length + 1;
        proof {
            assert forall|rows: Seq<IndexedFile>| #[trigger]
                before.nearly_describes(rows) implies self.nearly_describes(
                rows.push(*file),
            ) by {
                let more = rows.push(*file);
                let n = rows.len() as int;
                assert(block_count(n + 1) == block_count(n) + (if n % BLOCK_ENTRIES as int == 0 {
                    1int
                } else {
                    0
                }));
                assert(bitmaps::slots_in(*self.known) =~= known_slots(more, self.field));
                assert forall|i: int|
                    0 <= i < self.blocks@.len() && !bitmaps::slots_in(self.dirty).contains(
                        i as u32,
                    ) implies bounds(
                    #[trigger] self.blocks@[i],
                    more,
                    self.field,
                    i,
                    more.len() as int,
                ) by {
                    assert forall|slot: int|
                        0 <= slot < more.len() && #[trigger] in_block(slot, i) implies (value_of(
                        more[slot],
                        self.field,
                    ) matches Some(found) ==> self.blocks@[i].minimum <= found
                        <= self.blocks@[i].maximum) by {
                        if slot < n {
                            assert(more[slot] == rows[slot]);
                            if i < before.blocks@.len() {
                                assert(bounds(before.blocks@[i], rows, self.field, i, n));
                            }
                        } else {
                            assert(i == self.blocks@.len() - 1);
                        }
                    }
                }
            }
        }
    }

    /// The number of a row changed. The bounds of its block are out of date until the update is
    /// finished.
    pub fn set(&mut self, slot: u32, file: &IndexedFile)
        requires
            slot <= old(self).length,
            old(self).length < u32::MAX,
        ensures
            final(self).field == old(self).field,
            forall|rows: Seq<IndexedFile>| #[trigger]
                old(self).nearly_describes(rows) ==> final(self).nearly_describes(
                    if slot == rows.len() {
                        rows.push(*file)
                    } else {
                        rows.update(slot as int, *file)
                    },
                ),
    {
        if slot as usize == self.length {
            self.push(file);
            return;
        }
        let ghost before = *self;
        let number = value(file, self.field);
        let known = own_slots(&mut self.known);
        if number.is_some() {
            known.insert(slot);
        } else {
            known.remove(slot);
        }
        let index: u32 = slot / 4096;
        self.dirty.insert(index);
        proof {
            assert forall|rows: Seq<IndexedFile>| #[trigger]
                before.nearly_describes(rows) implies self.nearly_describes(
                rows.update(slot as int, *file),
            ) by {
                let other = rows.update(slot as int, *file);
                assert(bitmaps::slots_in(*self.known) =~= known_slots(other, self.field));
                assert forall|i: int|
                    0 <= i < self.blocks@.len() && !bitmaps::slots_in(self.dirty).contains(
                        i as u32,
                    ) implies bounds(
                    #[trigger] self.blocks@[i],
                    other,
                    self.field,
                    i,
                    other.len() as int,
                ) by {
                    assert(bounds(before.blocks@[i], rows, self.field, i, rows.len() as int));
                    assert(i != index);
                    assert forall|s: int| 0 <= s < other.len() && #[trigger] in_block(s, i) implies (
                    value_of(other[s], self.field) matches Some(found)
                        ==> self.blocks@[i].minimum <= found <= self.blocks@[i].maximum) by {
                        assert(s != slot);
                        assert(other[s] == rows[s]);
                    }
                }
            }
        }
    }

    /// The bounds of a block, from its rows.
    fn bounds_of(&self, rows: &Vec<IndexedFile>, index: usize) -> (block: Block)
        requires
            rows@.len() <= u32::MAX,
            index <= rows@.len(),
        ensures
            bounds(block, rows@, self.field, index as int, rows@.len() as int),
    {
        let mut block = empty_block();
        let start: u64 = index as u64 * 4096;
        let end: u64 = start + 4096;
        let mut slot: u64 = start;
        while slot < end && slot < rows.len() as u64
            invariant
                rows@.len() <= u32::MAX,
                start == index * BLOCK_ENTRIES,
                end == start + BLOCK_ENTRIES,
                start <= slot <= end,
                bounds(block, rows@, self.field, index as int, slot as int),
            decreases end - slot,
        {
            let ghost before = block;
            block = widened(block, value(&rows[slot as usize], self.field));
            proof {
                assert forall|s: int|
                    0 <= s < slot + 1 && s < rows@.len() && #[trigger] in_block(
                        s,
                        index as int,
                    ) implies (value_of(rows@[s], self.field) matches Some(found)
                    ==> block.minimum <= found <= block.maximum) by {
                    if s < slot {
                        assert(in_block(s, index as int));
                    }
                }
            }
            slot = slot + 1;
        }
        block
    }

    /// Bring the bounds of dirty blocks up to date.
    pub fn finish_update(&mut self, rows: &Vec<IndexedFile>)
        requires
            rows@.len() <= u32::MAX,
        ensures
            final(self).field == old(self).field,
            old(self).nearly_describes(rows@) ==> final(self).describes(rows@),
    {
        let ghost before = *self;
        let list = slot_list(&self.dirty);
        let mut next: usize = 0;
        while next < list.len()
            invariant
                next <= list@.len(),
                rows@.len() <= u32::MAX,
                list@.to_set() == bitmaps::slots_in(before.dirty),
                self.field == before.field,
                self.known == before.known,
                self.length == before.length,
                self.blocks@.len() == before.blocks@.len(),
                forall|i: int|
                    0 <= i < self.blocks@.len() ==> (exists|k: int|
                        0 <= k < next && #[trigger] list@[k] == i) && before.nearly_describes(rows@)
                        ==> bounds(
                        #[trigger] self.blocks@[i],
                        rows@,
                        self.field,
                        i,
                        rows@.len() as int,
                    ),
                forall|i: int|
                    0 <= i < self.blocks@.len() && !(exists|k: int|
                        0 <= k < next && #[trigger] list@[k] == i) ==> #[trigger] self.blocks@[i]
                        == before.blocks@[i],
            decreases list@.len() - next,
        {
            let index = list[next] as usize;
            if index < self.blocks.len() && index <= rows.len() {
                let block = self.bounds_of(rows, index);
                let ghost earlier = self.blocks@;
                self.blocks.set(index, block);
                proof {
                    assert forall|i: int|
                        0 <= i < self.blocks@.len() && (exists|k: int|
                            0 <= k < next + 1 && #[trigger] list@[k] == i)
                            && before.nearly_describes(rows@) implies bounds(
                        #[trigger] self.blocks@[i],
                        rows@,
                        self.field,
                        i,
                        rows@.len() as int,
                    ) by {
                        if i != index {
                            let k = choose|k: int| 0 <= k < next + 1 && #[trigger] list@[k] == i;
                            assert(0 <= k < next && list@[k] == i);
                            assert(self.blocks@[i] == earlier[i]);
                        }
                    }
                    assert forall|i: int|
                        0 <= i < self.blocks@.len() && !(exists|k: int|
                            0 <= k < next + 1 && #[trigger] list@[k]
                                == i) implies #[trigger] self.blocks@[i] == before.blocks@[i] by {
                        assert(list@[next as int] == index);
                        assert(i != index);
                        assert(self.blocks@[i] == earlier[i]);
                    }
                }
            } else {
                proof {
                    if before.nearly_describes(rows@) && index < self.blocks@.len() {
                        assert(block_count(rows@.len() as int) <= rows@.len());
                    }
                    assert forall|i: int|
                        0 <= i < self.blocks@.len() && (exists|k: int|
                            0 <= k < next + 1 && #[trigger] list@[k] == i)
                            && before.nearly_describes(rows@) implies bounds(
                        #[trigger] self.blocks@[i],
                        rows@,
                        self.field,
                        i,
                        rows@.len() as int,
                    ) by {
                        let k = choose|k: int| 0 <= k < next + 1 && #[trigger] list@[k] == i;
                        assert(k != next);
                    }
                    assert forall|i: int|
                        0 <= i < self.blocks@.len() && !(exists|k: int|
                            0 <= k < next + 1 && #[trigger] list@[k]
                                == i) implies #[trigger] self.blocks@[i] == before.blocks@[i] by {
                        assert(!(exists|k: int| 0 <= k < next && #[trigger] list@[k] == i)) by {
                            if exists|k: int| 0 <= k < next && #[trigger] list@[k] == i {
                                let k = choose|k: int| 0 <= k < next && #[trigger] list@[k] == i;
                                assert(0 <= k < next + 1 && list@[k] == i);
                            }
                        }
                    }
                }
            }
            next = next + 1;
        }
        self.dirty = RoaringBitmap::new();
        proof {
            if before.nearly_describes(rows@) {
                assert forall|i: int| 0 <= i < self.blocks@.len() implies bounds(
                    #[trigger] self.blocks@[i],
                    rows@,
                    self.field,
                    i,
                    rows@.len() as int,
                ) by {
                    if bitmaps::slots_in(before.dirty).contains(i as u32) {
                        assert(list@.to_set().contains(i as u32));
                        let k = choose|k: int| 0 <= k < list@.len() && list@[k] == i as u32;
                        assert(0 <= k < next && list@[k] == i);
                    } else {
                        assert(!(exists|k: int| 0 <= k < next && #[trigger] list@[k] == i)) by {
                            if exists|k: int| 0 <= k < next && #[trigger] list@[k] == i {
                                let k = choose|k: int| 0 <= k < next && #[trigger] list@[k] == i;
                                assert(list@.to_set().contains(list@[k]));
                            }
                        }
                        assert(self.blocks@[i] == before.blocks@[i]);
                    }
                }
            }
        }
    }
}

/// The live slots whose known number lies in a span, or with `negate` outside it.
pub open spec fn in_span(
    rows: Seq<IndexedFile>,
    field: NumericField,
    live: Set<u32>,
    low: int,
    high: int,
    negate: bool,
) -> Set<u32> {
    Set::new(
        |slot: u32|
            live.contains(slot) && slot < rows.len() && (value_of(rows[slot as int], field) matches Some(
                number,
            ) && (low <= number <= high) != negate),
    )
}

/// The slots before a place whose known number lies in a span are in a set, and of the others
/// only some without a known number.
pub open spec fn gathered(
    inside: Set<u32>,
    rows: Seq<IndexedFile>,
    field: NumericField,
    low: int,
    high: int,
    end: int,
) -> bool {
    &&& forall|slot: u32|
        #![trigger inside.contains(slot)]
        slot < end && slot < rows.len() ==> (value_of(rows[slot as int], field) matches Some(number)
            ==> inside.contains(slot) == (low <= number <= high))
    &&& forall|slot: u32| #[trigger] inside.contains(slot) ==> slot < end
}

impl Column {
    /// Gather one block.
    fn gather(
        &self,
        inside: &mut RoaringBitmap,
        rows: &Vec<IndexedFile>,
        index: usize,
        low: i128,
        high: i128,
    )
        requires
            self.describes(rows@),
            index < self.blocks@.len(),
            gathered(
                bitmaps::slots_in(*old(inside)),
                rows@,
                self.field,
                low as int,
                high as int,
                index * BLOCK_ENTRIES,
            ),
        ensures
            gathered(
                bitmaps::slots_in(*final(inside)),
                rows@,
                self.field,
                low as int,
                high as int,
                (index + 1) * BLOCK_ENTRIES,
            ),
    {
        let block = self.blocks[index];
        let start: u64 = index as u64 * 4096;
        let end: u64 = start + 4096;
        let ghost first = bitmaps::slots_in(*inside);
        assert(bounds(block, rows@, self.field, index as int, rows@.len() as int));
        if block.minimum > block.maximum || block.maximum < low || block.minimum > high {
            proof {
                assert forall|slot: u32|
                    #![trigger first.contains(slot)]
                    slot < end && slot < rows@.len() implies (value_of(
                    rows@[slot as int],
                    self.field,
                ) matches Some(number) ==> first.contains(slot) == (low <= number <= high)) by {
                    if slot >= start {
                        assert(in_block(slot as int, index as int));
                    }
                }
            }
            return;
        }
        let whole = low <= block.minimum && block.maximum <= high;
        let mut slot: u64 = start;
        while slot < end && slot < rows.len() as u64
            invariant
                rows@.len() <= u32::MAX,
                start == index * BLOCK_ENTRIES,
                end == start + BLOCK_ENTRIES,
                start <= slot <= end,
                whole == (low <= block.minimum && block.maximum <= high),
                bounds(block, rows@, self.field, index as int, rows@.len() as int),
                gathered(
                    bitmaps::slots_in(*inside),
                    rows@,
                    self.field,
                    low as int,
                    high as int,
                    slot as int,
                ),
            decreases end - slot,
        {
            let ghost before = bitmaps::slots_in(*inside);
            let mut take = whole;
            let number = value(&rows[slot as usize], self.field);
            if !whole {
                take = match number {
                    Some(found) => low <= found && found <= high,
                    None => false,
                };
            }
            assert(in_block(slot as int, index as int));
            if take {
                inside.insert(slot as u32);
            }
            proof {
                let after = bitmaps::slots_in(*inside);
                assert forall|s: u32|
                    #![trigger after.contains(s)]
                    s < slot + 1 && s < rows@.len() implies (value_of(
                    rows@[s as int],
                    self.field,
                ) matches Some(found) ==> after.contains(s) == (low <= found <= high)) by {
                    assert(before.contains(s) == before.contains(s));
                }
                assert forall|s: u32| #[trigger] after.contains(s) implies s < slot + 1 by {
                    assert(before.contains(s) == before.contains(s));
                }
            }
            slot = slot + 1;
        }
        proof {
            let after = bitmaps::slots_in(*inside);
            assert forall|s: u32|
                #![trigger after.contains(s)]
                s < end && s < rows@.len() implies (value_of(rows@[s as int], self.field) matches Some(
                found,
            ) ==> after.contains(s) == (low <= found <= high)) by {}
        }
    }

    /// The live slots whose known number lies in a span, or with `negate` outside it.
    pub fn range<C: Fn() -> bool>(
        &self,
        low: i128,
        high: i128,
        negate: bool,
        rows: &Vec<IndexedFile>,
        live: &RoaringBitmap,
        cancelled: &C,
    ) -> (result: Result<RoaringBitmap, String>)
        requires
            self.describes(rows@),
            call_requires(*cancelled, ()),
        ensures
            match result {
                Ok(found) => bitmaps::slots_in(found) == in_span(
                    rows@,
                    self.field,
                    bitmaps::slots_in(*live),
                    low as int,
                    high as int,
                    negate,
                ),
                Err(reason) => reason@ == "Query cancelled"@ && call_ensures(*cancelled, (), true),
            },
            cancellation::always(*cancelled) ==> result is Err,
    {
        let mut inside = RoaringBitmap::new();
        let mut index: usize = 0;
        while index < self.blocks.len()
            invariant
                index <= self.blocks@.len(),
                self.describes(rows@),
                call_requires(*cancelled, ()),
                gathered(
                    bitmaps::slots_in(inside),
                    rows@,
                    self.field,
                    low as int,
                    high as int,
                    index * BLOCK_ENTRIES,
                ),
            decreases self.blocks@.len() - index,
        {
            if cancelled() {
                return Err("Query cancelled".to_owned());
            }
            self.gather(&mut inside, rows, index, low, high);
            index = index + 1;
        }
        if cancelled() {
            return Err("Query cancelled".to_owned());
        }
        let mut found = copy_bitmap(&self.known);
        if negate {
            subtract(&mut found, &inside);
        } else {
            intersect(&mut found, &inside);
        }
        intersect(&mut found, live);
        proof {
            let want = in_span(
                rows@,
                self.field,
                bitmaps::slots_in(*live),
                low as int,
                high as int,
                negate,
            );
            assert(index * BLOCK_ENTRIES >= rows@.len());
            assert forall|slot: u32| #[trigger] bitmaps::slots_in(found).contains(slot)
                == want.contains(slot) by {
                assert(bitmaps::slots_in(inside).contains(slot) == bitmaps::slots_in(
                    inside,
                ).contains(slot));
                assert(known_slots(rows@, self.field).contains(slot) == (slot < rows@.len()
                    && value_of(rows@[slot as int], self.field) is Some));
            }
            assert(bitmaps::slots_in(found) =~= want);
        }
        Ok(found)
    }
}

/// The columns of sizes and dates.
pub struct NumericColumns {
    pub size: Column,
    pub modified: Column,
    pub created: Column,
}

/// The field of a term that the columns answer.
pub open spec fn column_field(name: Seq<char>) -> Option<NumericField> {
    if name == "size"@ {
        Some(NumericField::Size)
    } else if name == "modified"@ {
        Some(NumericField::Modified)
    } else if name == "created"@ {
        Some(NumericField::Created)
    } else {
        None
    }
}

fn named_field(name: &str) -> (field: Option<NumericField>)
    ensures
        field == column_field(name@),
{
    if same_text(name, "size") {
        Some(NumericField::Size)
    } else if same_text(name, "modified") {
        Some(NumericField::Modified)
    } else if same_text(name, "created") {
        Some(NumericField::Created)
    } else {
        None
    }
}

/// The field that a term asks for, if the columns have it.
pub open spec fn term_field(term: TermView) -> Option<NumericField> {
    match term {
        TermView::Number { field, .. } => column_field(field),
        TermView::Unknown { field, .. } => column_field(field),
        _ => None,
    }
}

/// The live slots whose rows a term matches.
pub open spec fn matching(term: TermView, rows: Seq<IndexedFile>, live: Set<u32>) -> Set<u32> {
    Set::new(
        |slot: u32|
            live.contains(slot) && slot < rows.len() && evaluate::term_truth(
                term,
                rows[slot as int],
                None,
            ),
    )
}

impl NumericColumns {
    pub open spec fn fields_fit(&self) -> bool {
        self.size.field is Size && self.modified.field is Modified && self.created.field is Created
    }

    pub open spec fn nearly_describes(&self, rows: Seq<IndexedFile>) -> bool {
        self.fields_fit() && self.size.nearly_describes(rows) && self.modified.nearly_describes(
            rows,
        ) && self.created.nearly_describes(rows)
    }

    pub open spec fn describes(&self, rows: Seq<IndexedFile>) -> bool {
        self.fields_fit() && self.size.describes(rows) && self.modified.describes(rows)
            && self.created.describes(rows)
    }

    /// Whether the columns answer a term.
    pub fn supports(term: &Term) -> (yes: bool)
        ensures
            yes == (term_field(term@) is Some),
    {
        match term {
            Term::Number { field, .. } => named_field(field.as_str()).is_some(),
            Term::Unknown { field, .. } => named_field(field.as_str()).is_some(),
            _ => false,
        }
    }

    /// The columns of some rows.
    pub fn build(rows: &Vec<IndexedFile>) -> (columns: Self)
        requires
            rows@.len() <= u32::MAX,
        ensures
            columns.describes(rows@),
    {
        let mut columns = NumericColumns {
            size: Column::new(NumericField::Size),
            modified: Column::new(NumericField::Modified),
            created: Column::new(NumericField::Created),
        };
        let mut next: usize = 0;
        assert(rows@.take(0) =~= Seq::<IndexedFile>::empty());
        while next < rows.len()
            invariant
                next <= rows@.len(),
                rows@.len() <= u32::MAX,
                columns.describes(rows@.take(next as int)),
            decreases rows@.len() - next,
        {
            assert(rows@.take(next + 1) =~= rows@.take(next as int).push(rows@[next as int]));
            let file = &rows[next];
            columns.size.push(file);
            columns.modified.push(file);
            columns.created.push(file);
            next = next + 1;
        }
        assert(rows@.take(next as int) =~= rows@);
        columns
    }

    /// A row changed, or one was added.
    pub fn set(&mut self, slot: u32, file: &IndexedFile)
        requires
            slot <= old(self).size.length,
            old(self).size.length < u32::MAX,
            old(self).modified.length == old(self).size.length,
            old(self).created.length == old(self).size.length,
        ensures
            forall|rows: Seq<IndexedFile>| #[trigger]
                old(self).nearly_describes(rows) ==> final(self).nearly_describes(
                    if slot == rows.len() {
                        rows.push(*file)
                    } else {
                        rows.update(slot as int, *file)
                    },
                ),
    {
        self.size.set(slot, file);
        self.modified.set(slot, file);
        self.created.set(slot, file);
    }

    /// Bring the columns up to date with their rows.
    pub fn finish_update(&mut self, rows: &Vec<IndexedFile>)
        requires
            rows@.len() <= u32::MAX,
        ensures
            old(self).nearly_describes(rows@) ==> final(self).describes(rows@),
    {
        self.size.finish_update(rows);
        self.modified.finish_update(rows);
        self.created.finish_update(rows);
    }

    /// The live slots whose rows a term matches, where the columns answer it.
    pub fn exact<C: Fn() -> bool>(
        &self,
        term: &Term,
        rows: &Vec<IndexedFile>,
        live: &RoaringBitmap,
        cancelled: C,
    ) -> (result: Result<Option<RoaringBitmap>, String>)
        requires
            self.describes(rows@),
            forall|slot: u32| #[trigger] bitmaps::slots_in(*live).contains(slot) ==> slot < rows@.len(),
            call_requires(cancelled, ()),
        ensures
            match result {
                Ok(Some(found)) => term_field(term@) is Some && bitmaps::slots_in(found) == matching(
                    term@,
                    rows@,
                    bitmaps::slots_in(*live),
                ),
                Ok(None) => term_field(term@) is None,
                Err(reason) => reason@ == "Query cancelled"@ && call_ensures(cancelled, (), true),
            },
            cancellation::always(cancelled) ==> result is Err,
    {
        if cancelled() {
            return Err("Query cancelled".to_owned());
        }
        let ghost all = bitmaps::slots_in(*live);
        let ghost want = matching(term@, rows@, all);
        match term {
            Term::Number { field, bounds, negate } => {
                let column = match named_field(field.as_str()) {
                    Some(NumericField::Size) => &self.size,
                    Some(NumericField::Modified) => &self.modified,
                    Some(NumericField::Created) => &self.created,
                    None => {
                        return Ok(None);
                    },
                };
                // A span that is still to be asked for holds nothing.
                let (low, high) = match bounds {
                    NumberBounds::Span(low, high) => (*low, *high),
                    NumberBounds::Pending(_) => (1i128, 0i128),
                };
                match column.range(low, high, *negate, rows, live, &cancelled) {
                    Ok(found) => {
                        proof {
                            lemma_field_numbers(column.field, field@);
                            assert forall|slot: u32| #[trigger] bitmaps::slots_in(found).contains(
                                slot,
                            ) == want.contains(slot) by {
                                if all.contains(slot) {
                                    assert(evaluate::number_of(rows@[slot as int], field@)
                                        == value_of(rows@[slot as int], column.field));
                                }
                            }
                            assert(bitmaps::slots_in(found) =~= want);
                        }
                        Ok(Some(found))
                    },
                    Err(reason) => Err(reason),
                }
            },
            Term::Unknown { field, negate } => {
                let column = match named_field(field.as_str()) {
                    Some(NumericField::Size) => &self.size,
                    Some(NumericField::Modified) => &self.modified,
                    Some(NumericField::Created) => &self.created,
                    None => {
                        return Ok(None);
                    },
                };
                let mut found = copy_bitmap(live);
                if *negate {
                    intersect(&mut found, &column.known);
                } else {
                    subtract(&mut found, &column.known);
                }
                proof {
                    lemma_field_numbers(column.field, field@);
                    assert forall|slot: u32| #[trigger] bitmaps::slots_in(found).contains(slot)
                        == want.contains(slot) by {
                        if all.contains(slot) {
                            assert(evaluate::number_of(rows@[slot as int], field@) == value_of(
                                rows@[slot as int],
                                column.field,
                            ));
                        }
                    }
                    assert(bitmaps::slots_in(found) =~= want);
                }
                Ok(Some(found))
            },
            _ => Ok(None),
        }
    }
}

/// The columns hold what evaluation reads.
proof fn lemma_field_numbers(field: NumericField, name: Seq<char>)
    requires
        column_field(name) == Some(field),
    ensures
        forall|file: IndexedFile| #[trigger] evaluate::number_of(file, name) == value_of(file, field),
{
    reveal_strlit("size");
    reveal_strlit("modified");
    reveal_strlit("created");
    assert("size"@.len() == 4 && "modified"@.len() == 8 && "created"@.len() == 7);
}

} // verus!
