//! Parsed result ordering shared by snapshots and queries.
use crate::comparator;
use crate::files::IndexedFile;
use crate::lexicographic;
use crate::natural;
use crate::natural::natural_cmp_folded;
use crate::text;
use crate::text::same_text;
use crate::text_order;
use core::cmp::Ordering;
use vstd::prelude::*;

pub mod laws;

verus! {

/// What rows are sorted by.
#[derive(Clone, Copy, Debug, PartialEq, Eq, Structural)]
pub enum SortField {
    Name,
    Path,
    Extension,
    Size,
    Modified,
    Created,
    Directory,
}

/// One requested sort key: its field name and its direction, where they are given.
pub struct SortItem {
    pub field: Option<String>,
    pub ascending: Option<bool>,
}

/// A list of sort keys with their directions. Rows that agree in all of them are sorted by
/// path, then by id.
#[derive(Clone, Debug)]
pub struct ResultOrder {
    pub keys: Vec<(SortField, bool)>,
}

/// The field that a name stands for.
pub open spec fn field_named(name: Seq<char>) -> Option<SortField> {
    if name == "name"@ {
        Some(SortField::Name)
    } else if name == "path"@ {
        Some(SortField::Path)
    } else if name == "extension"@ {
        Some(SortField::Extension)
    } else if name == "size"@ {
        Some(SortField::Size)
    } else if name == "modified"@ {
        Some(SortField::Modified)
    } else if name == "created"@ {
        Some(SortField::Created)
    } else if name == "is_dir"@ {
        Some(SortField::Directory)
    } else {
        None
    }
}

/// The field of a requested sort key.
pub open spec fn item_field(item: SortItem) -> Option<SortField> {
    match item.field {
        Some(name) => field_named(name@),
        None => Some(SortField::Name),
    }
}

/// The direction of a requested sort key.
pub open spec fn item_ascending(item: SortItem) -> bool {
    match item.ascending {
        Some(ascending) => ascending,
        None => true,
    }
}

/// The sort keys of a request, where each of its fields is known; by name where there is none.
pub open spec fn requested_keys(items: Option<Seq<SortItem>>) -> Option<Seq<(SortField, bool)>> {
    match items {
        None => Some(seq![(SortField::Name, true)]),
        Some(list) => if exists|i: int|
            0 <= i < list.len() && #[trigger] item_field(list[i]) is None {
            None
        } else {
            Some(list.map_values(|item: SortItem| (item_field(item)->0, item_ascending(item))))
        },
    }
}

/// Keys as numbers: one for each integer.
pub open spec fn one_key(value: int) -> Seq<int> {
    seq![value]
}

/// The key of a row for a field.
pub open spec fn field_key(file: IndexedFile, field: SortField) -> Seq<int> {
    match field {
        SortField::Name => natural::natural_key(text::bytes_of(file.folded_name@)),
        SortField::Path => natural::natural_key(text::bytes_of(file.folded_path@)),
        SortField::Extension => natural::byte_keys(text::bytes_of(file.extension@)),
        SortField::Size => one_key(file.size as int),
        SortField::Modified => one_key(file.modified as int),
        SortField::Created => one_key(file.created as int),
        SortField::Directory => one_key(
            if file.is_dir {
                1
            } else {
                0
            },
        ),
    }
}

impl ResultOrder {
    /// The sort keys of a request; by name where there is none.
    pub fn parse(items: Option<&Vec<SortItem>>) -> (result: Result<Self, String>)
        ensures
            match items {
                None => result matches Ok(order) && order.keys@ == seq![(SortField::Name, true)],
                Some(list) => if exists|i: int|
                    0 <= i < list@.len() && #[trigger] item_field(list@[i]) is None {
                    result matches Err(reason) && reason@ == "Unsupported sort field"@
                } else {
                    result matches Ok(order) && order.keys@ == list@.map_values(
                        |item: SortItem| (item_field(item)->0, item_ascending(item)),
                    )
                },
            },
            match requested_keys(
                match items {
                    None => None,
                    Some(list) => Some(list@),
                },
            ) {
                None => result is Err,
                Some(keys) => result matches Ok(order) && order.keys@ == keys,
            },
    {
        let list = match items {
            None => {
                return Ok(Self::name());
            },
            Some(list) => list,
        };
        let ghost wanted = list@.map_values(
            |item: SortItem| (item_field(item)->0, item_ascending(item)),
        );
        let mut keys: Vec<(SortField, bool)> = Vec::new();
        let mut next: usize = 0;
        while next < list.len()
            invariant
                next <= list@.len(),
                items == Some(list),
                wanted == list@.map_values(
                    |item: SortItem| (item_field(item)->0, item_ascending(item)),
                ),
                keys@ == wanted.take(next as int),
                forall|i: int| 0 <= i < next ==> !(#[trigger] item_field(list@[i]) is None),
            decreases list@.len() - next,
        {
            let item = &list[next];
            let field = match &item.field {
                None => SortField::Name,
                Some(name) => match sort_field(name.as_str()) {
                    Some(field) => field,
                    None => {
                        assert(item_field(list@[next as int]) is None);
                        return Err("Unsupported sort field".to_owned());
                    },
                },
            };
            let ascending = match item.ascending {
                Some(ascending) => ascending,
                None => true,
            };
            keys.push((field, ascending));
            next = next + 1;
            assert(keys@ =~= wanted.take(next as int));
        }
        assert(wanted.take(next as int) =~= wanted);
        Ok(ResultOrder { keys })
    }

    pub fn name() -> (order: Self)
        ensures
            order.keys@ == seq![(SortField::Name, true)],
    {
        let mut keys: Vec<(SortField, bool)> = Vec::new();
        keys.push((SortField::Name, true));
        assert(keys@ =~= seq![(SortField::Name, true)]);
        ResultOrder { keys }
    }

    pub fn path() -> (order: Self)
        ensures
            order.keys@ == seq![(SortField::Path, true)],
    {
        let mut keys: Vec<(SortField, bool)> = Vec::new();
        keys.push((SortField::Path, true));
        assert(keys@ =~= seq![(SortField::Path, true)]);
        ResultOrder { keys }
    }

    /// The direction of an order that sorts by path first.
    pub fn primary_path_direction(&self) -> (direction: Option<bool>)
        ensures
            direction == (if self.keys@.len() > 0 && self.keys@[0].0 == SortField::Path {
                Some(self.keys@[0].1)
            } else {
                None
            }),
    {
        if self.keys.len() > 0 && self.keys[0].0 == SortField::Path {
            Some(self.keys[0].1)
        } else {
            None
        }
    }
}

fn sort_field(name: &str) -> (field: Option<SortField>)
    ensures
        field == field_named(name@),
{
    if same_text(name, "name") {
        Some(SortField::Name)
    } else if same_text(name, "path") {
        Some(SortField::Path)
    } else if same_text(name, "extension") {
        Some(SortField::Extension)
    } else if same_text(name, "size") {
        Some(SortField::Size)
    } else if same_text(name, "modified") {
        Some(SortField::Modified)
    } else if same_text(name, "created") {
        Some(SortField::Created)
    } else if same_text(name, "is_dir") {
        Some(SortField::Directory)
    } else {
        None
    }
}

/// The order of two rows by one field.
pub open spec fn field_order(first: IndexedFile, second: IndexedFile, field: SortField) -> Ordering {
    lexicographic::lexicographic(field_key(first, field), field_key(second, field))
}

/// The order of two rows by path, then by id.
pub open spec fn tie_order(first: IndexedFile, second: IndexedFile) -> Ordering {
    let paths = lexicographic::lexicographic(
        natural::byte_keys(text::bytes_of(first.path@)),
        natural::byte_keys(text::bytes_of(second.path@)),
    );
    if paths == Ordering::Equal {
        lexicographic::lexicographic(one_key(first.id + 0), one_key(second.id + 0))
    } else {
        paths
    }
}

/// The order of two rows by some sort keys.
pub open spec fn row_order(
    keys: Seq<(SortField, bool)>,
    first: IndexedFile,
    second: IndexedFile,
) -> Ordering
    decreases keys.len(),
{
    if keys.len() == 0 {
        tie_order(first, second)
    } else {
        let (field, ascending) = keys[0];
        let order = field_order(first, second, field);
        if order == Ordering::Equal {
            row_order(keys.drop_first(), first, second)
        } else if ascending {
            order
        } else {
            lexicographic::opposite(order)
        }
    }
}

/// Swapping two rows turns their order round.
pub proof fn lemma_row_order_opposite(
    keys: Seq<(SortField, bool)>,
    first: IndexedFile,
    second: IndexedFile,
)
    ensures
        row_order(keys, second, first) == lexicographic::opposite(row_order(keys, first, second)),
    decreases keys.len(),
{
    if keys.len() == 0 {
        lexicographic::lemma_lexicographic_opposite(
            natural::byte_keys(text::bytes_of(first.path@)),
            natural::byte_keys(text::bytes_of(second.path@)),
        );
        lexicographic::lemma_lexicographic_opposite(one_key(first.id + 0), one_key(second.id + 0));
    } else {
        let field = keys[0].0;
        lexicographic::lemma_lexicographic_opposite(
            field_key(first, field),
            field_key(second, field),
        );
        lemma_row_order_opposite(keys.drop_first(), first, second);
    }
}

/// The order of rows is transitive.
pub proof fn lemma_row_order_transitive(
    keys: Seq<(SortField, bool)>,
    a: IndexedFile,
    b: IndexedFile,
    c: IndexedFile,
)
    requires
        row_order(keys, a, b) != Ordering::Greater,
        row_order(keys, b, c) != Ordering::Greater,
    ensures
        row_order(keys, a, c) != Ordering::Greater,
    decreases keys.len(),
{
    if keys.len() == 0 {
        let (x, y, z) = (
            natural::byte_keys(text::bytes_of(a.path@)),
            natural::byte_keys(text::bytes_of(b.path@)),
            natural::byte_keys(text::bytes_of(c.path@)),
        );
        lemma_lexicographic_chain(x, y, z);
        lemma_lexicographic_chain(one_key(a.id + 0), one_key(b.id + 0), one_key(c.id + 0));
    } else {
        let field = keys[0].0;
        let (x, y, z) = (field_key(a, field), field_key(b, field), field_key(c, field));
        lemma_lexicographic_chain(x, y, z);
        lemma_lexicographic_chain(z, y, x);
        lexicographic::lemma_lexicographic_opposite(x, y);
        lexicographic::lemma_lexicographic_opposite(y, z);
        lexicographic::lemma_lexicographic_opposite(x, z);
        let rest = keys.drop_first();
        if field_order(a, b, field) == Ordering::Equal && field_order(b, c, field)
            == Ordering::Equal {
            lemma_row_order_transitive(rest, a, b, c);
        }
    }
}

/// Two steps of the same order, one of them proper, make a proper step.
proof fn lemma_lexicographic_chain(x: Seq<int>, y: Seq<int>, z: Seq<int>)
    ensures
        lexicographic::lexicographic(x, y) != Ordering::Greater && lexicographic::lexicographic(y, z)
            != Ordering::Greater ==> lexicographic::lexicographic(x, z) != Ordering::Greater,
        lexicographic::lexicographic(x, y) != Ordering::Greater && lexicographic::lexicographic(y, z)
            != Ordering::Greater && lexicographic::lexicographic(x, z) == Ordering::Equal
            ==> lexicographic::lexicographic(x, y) == Ordering::Equal
            && lexicographic::lexicographic(y, z) == Ordering::Equal,
        lexicographic::lexicographic(x, y) == Ordering::Equal && lexicographic::lexicographic(y, z)
            == Ordering::Equal ==> lexicographic::lexicographic(x, z) == Ordering::Equal,
{
    lexicographic::lemma_lexicographic_opposite(x, y);
    lexicographic::lemma_lexicographic_opposite(y, z);
    lexicographic::lemma_lexicographic_opposite(x, z);
    if lexicographic::lexicographic(x, y) != Ordering::Greater && lexicographic::lexicographic(y, z)
        != Ordering::Greater {
        lexicographic::lemma_lexicographic_transitive(x, y, z);
    }
}

fn compare_integers(a: i128, b: i128) -> (order: Ordering)
    ensures
        order == lexicographic::lexicographic(one_key(a + 0), one_key(b + 0)),
{
    let ghost (x, y) = (one_key(a + 0), one_key(b + 0));
    proof {
        assert(x.drop_first() =~= Seq::<int>::empty());
        assert(y.drop_first() =~= Seq::<int>::empty());
        reveal_with_fuel(lexicographic::lexicographic, 2);
    }
    if a < b {
        Ordering::Less
    } else if a > b {
        Ordering::Greater
    } else {
        Ordering::Equal
    }
}

fn compare_texts(a: &str, b: &str) -> (order: Ordering)
    ensures
        order == lexicographic::lexicographic(
            natural::byte_keys(text::bytes_of(a@)),
            natural::byte_keys(text::bytes_of(b@)),
        ),
{
    compare_bytes(a.as_bytes(), b.as_bytes())
}

fn compare_bytes(a: &[u8], b: &[u8]) -> (order: Ordering)
    ensures
        order == lexicographic::lexicographic(natural::byte_keys(a@), natural::byte_keys(b@)),
{
    let ghost (x, y) = (natural::byte_keys(a@), natural::byte_keys(b@));
    let mut next: usize = 0;
    while next < a.len() && next < b.len()
        invariant
            next <= a@.len(),
            next <= b@.len(),
            x == natural::byte_keys(a@),
            y == natural::byte_keys(b@),
            a@.take(comparator::ix(next)) == b@.take(comparator::ix(next)),
        decreases a@.len() - next,
    {
        let ghost n = comparator::ix(next);
        if a[next] != b[next] {
            proof {
                assert(x.take(n) =~= natural::byte_keys(a@.take(n)));
                assert(y.take(n) =~= natural::byte_keys(b@.take(n)));
                lexicographic::lemma_lexicographic_differs(x, y, n);
            }
            return if a[next] < b[next] {
                Ordering::Less
            } else {
                Ordering::Greater
            };
        }
        assert(a@.take(n + 1) =~= a@.take(n).push(a@[n]));
        assert(b@.take(n + 1) =~= b@.take(n).push(b@[n]));
        next = next + 1;
    }
    let ghost n = comparator::ix(next);
    proof {
        assert(x =~= natural::byte_keys(a@.take(n)) + natural::byte_keys(a@.skip(n)));
        assert(y =~= natural::byte_keys(b@.take(n)) + natural::byte_keys(b@.skip(n)));
        lexicographic::lemma_lexicographic_prefix(
            natural::byte_keys(a@.take(n)),
            natural::byte_keys(a@.skip(n)),
            natural::byte_keys(b@.skip(n)),
        );
    }
    if next < a.len() {
        Ordering::Greater
    } else if next < b.len() {
        Ordering::Less
    } else {
        Ordering::Equal
    }
}

fn flipped(order: Ordering) -> (result: Ordering)
    ensures
        result == lexicographic::opposite(order),
{
    match order {
        Ordering::Less => Ordering::Greater,
        Ordering::Equal => Ordering::Equal,
        Ordering::Greater => Ordering::Less,
    }
}

/// The numbers of a row that are sorted by.
fn number_for(file: &IndexedFile, field: SortField) -> (number: i128)
    ensures
        field is Size || field is Modified || field is Created || field is Directory ==> field_key(
            *file,
            field,
        ) == one_key(number as int),
{
    match field {
        SortField::Size => file.size as i128,
        SortField::Modified => file.modified as i128,
        SortField::Created => file.created as i128,
        _ => if file.is_dir {
            1
        } else {
            0
        },
    }
}

fn row_id(file: &IndexedFile) -> (id: i128)
    ensures
        id == file.id,
{
    file.id as i128
}

fn compare_field(first: &IndexedFile, second: &IndexedFile, field: SortField) -> (order: Ordering)
    ensures
        order == field_order(*first, *second, field),
{
    match field {
        SortField::Name => natural_cmp_folded(first.folded_name.as_str(), second.folded_name.as_str()),
        SortField::Path => natural_cmp_folded(first.folded_path.as_str(), second.folded_path.as_str()),
        SortField::Extension => compare_texts(first.extension.as_str(), second.extension.as_str()),
        _ => compare_integers(number_for(first, field), number_for(second, field)),
    }
}

impl ResultOrder {
    /// The order of two rows.
    pub fn compare(&self, first: &IndexedFile, second: &IndexedFile) -> (order: Ordering)
        ensures
            order == row_order(self.keys@, *first, *second),
    {
        let ghost all = self.keys@;
        let mut next: usize = 0;
        assert(all.skip(0) =~= all);
        while next < self.keys.len()
            invariant
                next <= all.len(),
                all == self.keys@,
                row_order(all, *first, *second) == row_order(
                    all.skip(comparator::ix(next)),
                    *first,
                    *second,
                ),
            decreases all.len() - next,
        {
            let (field, ascending) = self.keys[next];
            let ghost rest = all.skip(comparator::ix(next));
            assert(rest[0] == (field, ascending));
            assert(rest.drop_first() =~= all.skip(next + 1));
            let order = compare_field(first, second, field);
            if !matches!(order, Ordering::Equal) {
                return if ascending {
                    order
                } else {
                    flipped(order)
                };
            }
            next = next + 1;
        }
        assert(all.skip(comparator::ix(next)) =~= Seq::<(SortField, bool)>::empty());
        let paths = compare_texts(first.path.as_str(), second.path.as_str());
        if matches!(paths, Ordering::Equal) {
            compare_integers(row_id(first), row_id(second))
        } else {
            paths
        }
    }
}

/// What a sort field compares of a row.
pub open spec fn same_field(a: IndexedFile, b: IndexedFile, field: SortField) -> bool {
    match field {
        SortField::Name => a.name@ == b.name@,
        SortField::Path => true,
        SortField::Extension => a.extension@ == b.extension@,
        SortField::Size => a.size == b.size,
        SortField::Modified => a.modified == b.modified,
        SortField::Created => a.created == b.created,
        SortField::Directory => a.is_dir == b.is_dir,
    }
}

/// A change that may move a row.
pub open spec fn change_moves(
    keys: Seq<(SortField, bool)>,
    previous: IndexedFile,
    current: IndexedFile,
) -> bool {
    ||| previous.path@ != current.path@
    ||| previous.id != current.id
    ||| exists|i: int|
        0 <= i < keys.len() && !same_field(previous, current, (#[trigger] keys[i]).0)
}

impl ResultOrder {
    /// Whether a change of a row may move it in this order.
    pub fn affected_by_change(&self, previous: &IndexedFile, current: &IndexedFile) -> (affected:
        bool)
        ensures
            affected == change_moves(self.keys@, *previous, *current),
    {
        if !same_text(previous.path.as_str(), current.path.as_str()) || previous.id != current.id {
            return true;
        }
        let mut next: usize = 0;
        while next < self.keys.len()
            invariant
                next <= self.keys@.len(),
                forall|i: int|
                    0 <= i < next ==> same_field(*previous, *current, (#[trigger] self.keys@[i]).0),
            decreases self.keys@.len() - next,
        {
            let differs = match self.keys[next].0 {
                SortField::Name => !same_text(previous.name.as_str(), current.name.as_str()),
                SortField::Path => false,
                SortField::Extension => !same_text(
                    previous.extension.as_str(),
                    current.extension.as_str(),
                ),
                SortField::Size => previous.size != current.size,
                SortField::Modified => previous.modified != current.modified,
                SortField::Created => previous.created != current.created,
                SortField::Directory => previous.is_dir != current.is_dir,
            };
            if differs {
                assert(!same_field(*previous, *current, self.keys@[next as int].0));
                return true;
            }
            next = next + 1;
        }
        false
    }
}

/// The folded texts of a row belong to its name and path.
pub open spec fn prepared(file: IndexedFile) -> bool {
    &&& file.folded_name@ == crate::fold::folded(file.name@)
    &&& file.folded_path@ == crate::fold::folded(file.path@)
}

/// A row that a change does not affect keeps its place among all other rows.
pub proof fn law_unaffected_rows_keep_their_place(
    keys: Seq<(SortField, bool)>,
    previous: IndexedFile,
    current: IndexedFile,
    other: IndexedFile,
)
    requires
        prepared(previous),
        prepared(current),
        !change_moves(keys, previous, current),
    ensures
        row_order(keys, previous, other) == row_order(keys, current, other),
        row_order(keys, other, previous) == row_order(keys, other, current),
    decreases keys.len(),
{
    if keys.len() > 0 {
        let rest = keys.drop_first();
        assert(same_field(previous, current, keys[0].0));
        assert forall|i: int| 0 <= i < rest.len() implies same_field(
            previous,
            current,
            (#[trigger] rest[i]).0,
        ) by {
            assert(rest[i] == keys[i + 1]);
        }
        law_unaffected_rows_keep_their_place(rest, previous, current, other);
    }
}

/// Rows that compare equal have the same path and id: no two rows of an index tie.
pub proof fn law_only_the_same_row_ties(
    keys: Seq<(SortField, bool)>,
    first: IndexedFile,
    second: IndexedFile,
)
    requires
        row_order(keys, first, second) == Ordering::Equal,
    ensures
        first.path@ == second.path@,
        first.id == second.id,
    decreases keys.len(),
{
    if keys.len() == 0 {
        let (x, y) = (text::bytes_of(first.path@), text::bytes_of(second.path@));
        lexicographic::lemma_lexicographic_opposite(natural::byte_keys(x), natural::byte_keys(y));
        lexicographic::lemma_lexicographic_opposite(one_key(first.id + 0), one_key(second.id + 0));
        assert(one_key(first.id + 0)[0] == one_key(second.id + 0)[0]);
        assert(x =~= y) by {
            assert(natural::byte_keys(x).len() == natural::byte_keys(y).len());
            assert forall|i: int| 0 <= i < x.len() implies x[i] == y[i] by {
                assert(natural::byte_keys(x)[i] == natural::byte_keys(y)[i]);
            }
        }
        text::lemma_same_bytes(first.path@, second.path@);
    } else {
        law_only_the_same_row_ties(keys.drop_first(), first, second);
    }
}

/// The order of two slots of a table: by their rows; a slot outside the table comes last.
pub open spec fn slot_order_in(
    rows: Seq<IndexedFile>,
    keys: Seq<(SortField, bool)>,
    a: u32,
    b: u32,
) -> Ordering {
    if a < rows.len() && b < rows.len() {
        row_order(keys, rows[a + 0], rows[b + 0])
    } else if a < rows.len() {
        Ordering::Less
    } else if b < rows.len() {
        Ordering::Greater
    } else {
        lexicographic::lexicographic(one_key(a + 0), one_key(b + 0))
    }
}

/// Slots of a table are totally ordered by their rows.
pub proof fn law_slots_are_totally_ordered(
    rows: Seq<IndexedFile>,
    keys: Seq<(SortField, bool)>,
    order: spec_fn(u32, u32) -> Ordering,
)
    requires
        forall|a: u32, b: u32| #[trigger] order(a, b) == slot_order_in(rows, keys, a, b),
    ensures
        comparator::total_preorder(order),
{
    assert forall|a: u32| #[trigger] order(a, a) == Ordering::Equal by {
        if a < rows.len() {
            lemma_row_order_opposite(keys, rows[a + 0], rows[a + 0]);
        } else {
            lexicographic::lemma_lexicographic_opposite(one_key(a + 0), one_key(a + 0));
        }
    }
    assert forall|a: u32, b: u32|
        (#[trigger] order(a, b) == Ordering::Less) == (order(b, a) == Ordering::Greater) by {
        if a < rows.len() && b < rows.len() {
            lemma_row_order_opposite(keys, rows[a + 0], rows[b + 0]);
        } else {
            lexicographic::lemma_lexicographic_opposite(one_key(a + 0), one_key(b + 0));
        }
    }
    assert forall|a: u32, b: u32, c: u32|
        #[trigger] order(a, b) != Ordering::Greater && #[trigger] order(b, c)
            != Ordering::Greater implies order(a, c) != Ordering::Greater by {
        if a < rows.len() && b < rows.len() && c < rows.len() {
            lemma_row_order_transitive(keys, rows[a + 0], rows[b + 0], rows[c + 0]);
        } else if a >= rows.len() && b >= rows.len() && c >= rows.len() {
            lexicographic::lemma_lexicographic_transitive(
                one_key(a + 0),
                one_key(b + 0),
                one_key(c + 0),
            );
        }
    }
}

fn slot_position(slot: u32) -> (position: usize)
    ensures
        position == slot,
{
    slot as usize
}

fn slot_number(slot: u32) -> (number: i128)
    ensures
        number == slot,
{
    slot as i128
}

impl ResultOrder {
    /// The order of two slots of a table.
    pub fn compare_slots(&self, rows: &Vec<IndexedFile>, a: u32, b: u32) -> (order: Ordering)
        ensures
            order == slot_order_in(rows@, self.keys@, a, b),
    {
        let (first, second) = (slot_position(a), slot_position(b));
        if first < rows.len() && second < rows.len() {
            self.compare(&rows[first], &rows[second])
        } else if first < rows.len() {
            Ordering::Less
        } else if second < rows.len() {
            Ordering::Greater
        } else {
            compare_integers(slot_number(a), slot_number(b))
        }
    }
}

/// The row of one slot comes before that of another.
pub open spec fn comes_before(
    rows: Seq<IndexedFile>,
    keys: Seq<(SortField, bool)>,
    a: u32,
    b: u32,
) -> bool {
    slot_order_in(rows, keys, a, b) == Ordering::Less
}

/// Rows of different paths are strictly ordered.
pub proof fn lemma_before_is_strict(
    rows: Seq<IndexedFile>,
    keys: Seq<(SortField, bool)>,
    a: u32,
    b: u32,
)
    ensures
        !comes_before(rows, keys, a, a),
        !(comes_before(rows, keys, a, b) && comes_before(rows, keys, b, a)),
        a < rows.len() && b < rows.len() && rows[a + 0].path@ != rows[b + 0].path@ ==> comes_before(
            rows,
            keys,
            a,
            b,
        ) || comes_before(rows, keys, b, a),
{
    let order = |x: u32, y: u32| slot_order_in(rows, keys, x, y);
    law_slots_are_totally_ordered(rows, keys, order);
    assert(order(a, a) == Ordering::Equal);
    assert((order(a, b) == Ordering::Less) == (order(b, a) == Ordering::Greater));
    assert((order(b, a) == Ordering::Less) == (order(a, b) == Ordering::Greater));
    if a < rows.len() && b < rows.len() && rows[a + 0].path@ != rows[b + 0].path@ {
        if order(a, b) == Ordering::Equal {
            law_only_the_same_row_ties(keys, rows[a + 0], rows[b + 0]);
        }
    }
}

pub proof fn lemma_before_is_transitive(
    rows: Seq<IndexedFile>,
    keys: Seq<(SortField, bool)>,
    a: u32,
    b: u32,
    c: u32,
)
    requires
        comes_before(rows, keys, a, b),
        comes_before(rows, keys, b, c),
    ensures
        comes_before(rows, keys, a, c),
{
    let order = |x: u32, y: u32| slot_order_in(rows, keys, x, y);
    law_slots_are_totally_ordered(rows, keys, order);
    assert(order(a, b) != Ordering::Greater && order(b, c) != Ordering::Greater);
    assert(order(a, c) != Ordering::Greater);
    if order(a, c) == Ordering::Equal {
        assert((order(a, c) == Ordering::Less) == (order(c, a) == Ordering::Greater));
        assert((order(c, a) == Ordering::Less) == (order(a, c) == Ordering::Greater));
        assert(order(c, a) != Ordering::Greater && order(a, b) != Ordering::Greater);
        assert(order(c, b) != Ordering::Greater);
        assert((order(b, c) == Ordering::Less) == (order(c, b) == Ordering::Greater));
    }
}

proof fn lemma_bytes_in_order(a: Seq<u8>, b: Seq<u8>)
    ensures
        text_order::bytes_before(a, b) == (lexicographic::lexicographic(
            natural::byte_keys(a),
            natural::byte_keys(b),
        ) == Ordering::Less),
    decreases a.len(),
{
    let (x, y) = (natural::byte_keys(a), natural::byte_keys(b));
    if a.len() > 0 && b.len() > 0 {
        assert(x[0] == a[0] && y[0] == b[0]);
        if a[0] == b[0] {
            lemma_bytes_in_order(a.drop_first(), b.drop_first());
            assert(x.drop_first() =~= natural::byte_keys(a.drop_first()));
            assert(y.drop_first() =~= natural::byte_keys(b.drop_first()));
        }
    }
}

/// Without keys rows are sorted by the bytes of their paths.
pub proof fn lemma_ordered_by_path(rows: Seq<IndexedFile>, a: u32, b: u32)
    requires
        a < rows.len(),
        b < rows.len(),
        rows[a + 0].path@ != rows[b + 0].path@,
    ensures
        comes_before(rows, Seq::empty(), a, b) == text_order::text_before(
            rows[a + 0].path@,
            rows[b + 0].path@,
        ),
{
    let (x, y) = (text::bytes_of(rows[a + 0].path@), text::bytes_of(rows[b + 0].path@));
    lemma_bytes_in_order(x, y);
    lexicographic::lemma_lexicographic_opposite(natural::byte_keys(x), natural::byte_keys(y));
    if natural::byte_keys(x) == natural::byte_keys(y) {
        assert(x =~= y) by {
            assert(x.len() == natural::byte_keys(x).len());
            assert forall|i: int| 0 <= i < x.len() implies x[i] == y[i] by {
                assert(natural::byte_keys(x)[i] == natural::byte_keys(y)[i]);
            }
        }
        text::lemma_same_bytes(rows[a + 0].path@, rows[b + 0].path@);
    }
}

} // verus!
