//! What a requested order does, said of the names in the request and of the rows' own fields.
use crate::files::IndexedFile;
use crate::lexicographic;
use crate::natural;
use crate::result_order;
use crate::result_order::{SortField, SortItem};
use crate::snapshot;
use crate::text;
use core::cmp::Ordering;
use vstd::prelude::*;

verus! {

/// The bytes of one text come before those of another: at the first place where they differ, the
/// first text has the smaller byte or ends.
pub open spec fn bytes_before(a: Seq<u8>, b: Seq<u8>) -> bool {
    exists|at: int|
        0 <= at <= a.len() && at < b.len() && #[trigger] a.take(at) == b.take(at) && (at == a.len()
            || a[at] < b[at])
}

/// What a requested field name says of two rows: the first one has the smaller value in the
/// field of that name.
pub open spec fn smaller_in(name: Seq<char>, first: IndexedFile, second: IndexedFile) -> bool {
    ||| name == "size"@ && first.size < second.size
    ||| name == "modified"@ && first.modified < second.modified
    ||| name == "created"@ && first.created < second.created
    ||| name == "is_dir"@ && !first.is_dir && second.is_dir
    ||| name == "extension"@ && bytes_before(
        text::bytes_of(first.extension@),
        text::bytes_of(second.extension@),
    )
    ||| name == "name"@ && natural::natural_order(
        text::bytes_of(first.folded_name@),
        text::bytes_of(second.folded_name@),
    ) == Ordering::Less
    ||| name == "path"@ && natural::natural_order(
        text::bytes_of(first.folded_path@),
        text::bytes_of(second.folded_path@),
    ) == Ordering::Less
}

/// Two rows agree in the field of a requested name.
pub open spec fn equal_in(name: Seq<char>, first: IndexedFile, second: IndexedFile) -> bool {
    ||| name == "size"@ && first.size == second.size
    ||| name == "modified"@ && first.modified == second.modified
    ||| name == "created"@ && first.created == second.created
    ||| name == "is_dir"@ && first.is_dir == second.is_dir
    ||| name == "extension"@ && first.extension@ == second.extension@
    ||| name == "name"@ && natural::natural_order(
        text::bytes_of(first.folded_name@),
        text::bytes_of(second.folded_name@),
    ) == Ordering::Equal
    ||| name == "path"@ && natural::natural_order(
        text::bytes_of(first.folded_path@),
        text::bytes_of(second.folded_path@),
    ) == Ordering::Equal
}

/// The name of the field that an item asks for: where it gives none, the name.
pub open spec fn asked_name(item: SortItem) -> Seq<char> {
    match item.field {
        Some(name) => name@,
        None => "name"@,
    }
}

proof fn lemma_names_differ()
    ensures
        "name"@ != "path"@,
        "name"@ != "extension"@,
        "name"@ != "size"@,
        "name"@ != "modified"@,
        "name"@ != "created"@,
        "name"@ != "is_dir"@,
        "path"@ != "extension"@,
        "path"@ != "size"@,
        "path"@ != "modified"@,
        "path"@ != "created"@,
        "path"@ != "is_dir"@,
        "extension"@ != "size"@,
        "extension"@ != "modified"@,
        "extension"@ != "created"@,
        "extension"@ != "is_dir"@,
        "size"@ != "modified"@,
        "size"@ != "created"@,
        "size"@ != "is_dir"@,
        "modified"@ != "created"@,
        "modified"@ != "is_dir"@,
        "created"@ != "is_dir"@,
{
    reveal_strlit("name");
    reveal_strlit("path");
    reveal_strlit("extension");
    reveal_strlit("size");
    reveal_strlit("modified");
    reveal_strlit("created");
    reveal_strlit("is_dir");
    assert("name"@[0] == 'n');
    assert("path"@[0] == 'p');
    assert("extension"@[0] == 'e');
    assert("size"@[0] == 's');
    assert("modified"@[0] == 'm');
    assert("created"@[0] == 'c');
    assert("is_dir"@[0] == 'i');
}

proof fn lemma_keys_differ(a: Seq<u8>, b: Seq<u8>, at: int)
    requires
        0 <= at <= a.len(),
        at < b.len(),
        a.take(at) == b.take(at),
        at == a.len() || a[at] < b[at],
    ensures
        lexicographic::lexicographic(natural::byte_keys(a), natural::byte_keys(b))
            == Ordering::Less,
{
    let (x, y) = (natural::byte_keys(a), natural::byte_keys(b));
    assert forall|i: int| 0 <= i < at implies x[i] == y[i] by {
        assert(a.take(at)[i] == a[i]);
        assert(b.take(at)[i] == b[i]);
    }
    assert(x.take(at) =~= y.take(at));
    if at == a.len() {
        assert(x =~= x.take(at) + Seq::<int>::empty());
        assert(y =~= x.take(at) + y.skip(at));
        lexicographic::lemma_lexicographic_prefix(x.take(at), Seq::<int>::empty(), y.skip(at));
    } else {
        lexicographic::lemma_lexicographic_differs(x, y, at);
    }
}

proof fn lemma_field(
    name: Seq<char>,
    field: SortField,
    first: IndexedFile,
    second: IndexedFile,
)
    requires
        result_order::field_named(name) == Some(field),
    ensures
        smaller_in(name, first, second) ==> result_order::field_order(first, second, field)
            == Ordering::Less,
        smaller_in(name, second, first) ==> result_order::field_order(first, second, field)
            == Ordering::Greater,
        equal_in(name, first, second) ==> result_order::field_order(first, second, field)
            == Ordering::Equal,
{
    lemma_names_differ();
    let (x, y) = (result_order::field_key(first, field), result_order::field_key(second, field));
    lexicographic::lemma_lexicographic_opposite(x, y);
    lexicographic::lemma_lexicographic_opposite(y, x);
    if name == "extension"@ {
        let (a, b) = (text::bytes_of(first.extension@), text::bytes_of(second.extension@));
        if bytes_before(a, b) {
            let at = choose|at: int|
                0 <= at <= a.len() && at < b.len() && #[trigger] a.take(at) == b.take(at) && (at
                    == a.len() || a[at] < b[at]);
            lemma_keys_differ(a, b, at);
        }
        if bytes_before(b, a) {
            let at = choose|at: int|
                0 <= at <= b.len() && at < a.len() && #[trigger] b.take(at) == a.take(at) && (at
                    == b.len() || b[at] < a[at]);
            lemma_keys_differ(b, a, at);
        }
    }
}

/// A request is understood exactly if each of its fields has one of the seven names.
pub proof fn law_the_named_fields_can_be_sorted_by(items: Seq<SortItem>)
    ensures
        (result_order::requested_keys(Some(items)) is Some) == (forall|i: int|
            0 <= i < items.len() ==> {
                let name = asked_name(#[trigger] items[i]);
                name == "name"@ || name == "path"@ || name == "extension"@ || name == "size"@
                    || name == "modified"@ || name == "created"@ || name == "is_dir"@
            }),
{
    lemma_names_differ();
    assert forall|item: SortItem|
        #![trigger result_order::item_field(item)]
        #![trigger asked_name(item)]
        (result_order::item_field(item) is Some) == ({
            let name = asked_name(item);
            name == "name"@ || name == "path"@ || name == "extension"@ || name == "size"@ || name
                == "modified"@ || name == "created"@ || name == "is_dir"@
        }) by {}
    if result_order::requested_keys(Some(items)) is Some {
        assert forall|i: int| 0 <= i < items.len() implies {
            let name = asked_name(#[trigger] items[i]);
            name == "name"@ || name == "path"@ || name == "extension"@ || name == "size"@ || name
                == "modified"@ || name == "created"@ || name == "is_dir"@
        } by {
            assert(result_order::item_field(items[i]) is Some);
        }
    } else {
        let i = choose|i: int|
            0 <= i < items.len() && #[trigger] result_order::item_field(items[i]) is None;
        assert(asked_name(items[i]) == asked_name(items[i]));
    }
}

/// The first item of a request decides: with the field of its name in which two rows differ, the
/// row with the smaller value comes first, whatever else the rows hold, and last where the item
/// asks for descending order. Only where the rows agree in that field the other items decide.
pub proof fn law_rows_are_ordered_by_the_requested_field(
    items: Seq<SortItem>,
    keys: Seq<(SortField, bool)>,
    first: IndexedFile,
    second: IndexedFile,
)
    requires
        items.len() > 0,
        result_order::requested_keys(Some(items)) == Some(keys),
    ensures
        ({
            let name = asked_name(items[0]);
            let descending = items[0].ascending == Some(false);
            &&& smaller_in(name, first, second) ==> result_order::row_order(keys, first, second)
                == (if descending {
                Ordering::Greater
            } else {
                Ordering::Less
            })
            &&& smaller_in(name, second, first) ==> result_order::row_order(keys, first, second)
                == (if descending {
                Ordering::Less
            } else {
                Ordering::Greater
            })
            &&& equal_in(name, first, second) ==> result_order::requested_keys(
                Some(items.skip(1)),
            ) is Some && result_order::row_order(keys, first, second) == result_order::row_order(
                result_order::requested_keys(Some(items.skip(1)))->0,
                first,
                second,
            )
        }),
{
    let item = items[0];
    let name = asked_name(item);
    lemma_names_differ();
    assert(result_order::item_field(item) is Some);
    assert(result_order::field_named(name) == result_order::item_field(item));
    assert(keys[0] == (result_order::item_field(item)->0, result_order::item_ascending(item)));
    lemma_field(name, keys[0].0, first, second);
    let rest = items.skip(1);
    assert forall|i: int| 0 <= i < rest.len() implies #[trigger] result_order::item_field(rest[i])
        is Some by {
        assert(rest[i] == items[i + 1]);
        assert(result_order::item_field(items[i + 1]) is Some);
    }
    assert(result_order::requested_keys(Some(rest))->0 =~= keys.drop_first());
}

/// Rows that agree in everything that was asked for are ordered by their paths, byte by byte, and
/// then by their ids. Without a request rows are ordered by name.
pub proof fn law_ties_are_ordered_by_path_and_id(first: IndexedFile, second: IndexedFile)
    ensures
        result_order::requested_keys(Some(Seq::<SortItem>::empty())) == Some(
            Seq::<(SortField, bool)>::empty(),
        ),
        ({
            let none = Seq::<(SortField, bool)>::empty();
            let (a, b) = (text::bytes_of(first.path@), text::bytes_of(second.path@));
            let order = result_order::row_order(none, first, second);
            &&& bytes_before(a, b) ==> order == Ordering::Less
            &&& bytes_before(b, a) ==> order == Ordering::Greater
            &&& a == b && first.id < second.id ==> order == Ordering::Less
            &&& a == b && first.id > second.id ==> order == Ordering::Greater
            &&& a == b && first.id == second.id ==> order == Ordering::Equal
        }),
        ({
            let unasked = result_order::requested_keys(None);
            let (a, b) = (
                text::bytes_of(first.folded_name@),
                text::bytes_of(second.folded_name@),
            );
            unasked is Some && (natural::natural_order(a, b) != Ordering::Equal
                ==> result_order::row_order(unasked->0, first, second) == natural::natural_order(
                a,
                b,
            ))
        }),
{
    let none = Seq::<(SortField, bool)>::empty();
    assert(Seq::<SortItem>::empty().map_values(
        |item: SortItem|
            (result_order::item_field(item)->0, result_order::item_ascending(item)),
    ) =~= none);
    let (a, b) = (text::bytes_of(first.path@), text::bytes_of(second.path@));
    let (x, y) = (natural::byte_keys(a), natural::byte_keys(b));
    lexicographic::lemma_lexicographic_opposite(x, y);
    lexicographic::lemma_lexicographic_opposite(y, x);
    lexicographic::lemma_lexicographic_opposite(
        result_order::one_key(first.id + 0),
        result_order::one_key(second.id + 0),
    );
    if bytes_before(a, b) {
        let at = choose|at: int|
            0 <= at <= a.len() && at < b.len() && #[trigger] a.take(at) == b.take(at) && (at
                == a.len() || a[at] < b[at]);
        lemma_keys_differ(a, b, at);
    }
    if bytes_before(b, a) {
        let at = choose|at: int|
            0 <= at <= b.len() && at < a.len() && #[trigger] b.take(at) == a.take(at) && (at
                == b.len() || b[at] < a[at]);
        lemma_keys_differ(b, a, at);
    }
}

/// In a listing the rows stand as they were asked for: no row of ascending order has a smaller
/// value in the first requested field than a row before it, and none of descending order a larger
/// one.
pub proof fn law_listings_stand_in_the_requested_order(
    rows: Seq<IndexedFile>,
    items: Seq<SortItem>,
    keys: Seq<(SortField, bool)>,
    listing: Seq<u32>,
    i: int,
    j: int,
)
    requires
        items.len() > 0,
        result_order::requested_keys(Some(items)) == Some(keys),
        snapshot::listed_in_order(rows, keys, listing),
        0 <= i < j < listing.len(),
        listing[i] < rows.len(),
        listing[j] < rows.len(),
    ensures
        ({
            let name = asked_name(items[0]);
            let (before, after) = (rows[listing[i] + 0], rows[listing[j] + 0]);
            if items[0].ascending == Some(false) {
                !smaller_in(name, before, after)
            } else {
                !smaller_in(name, after, before)
            }
        }),
{
    assert(result_order::comes_before(rows, keys, listing[i], listing[j]));
    law_rows_are_ordered_by_the_requested_field(
        items,
        keys,
        rows[listing[i] + 0],
        rows[listing[j] + 0],
    );
}

} // verus!
