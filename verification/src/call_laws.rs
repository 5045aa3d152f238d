//! What the calls of the library give, said of what goes into each call and of what comes out.
use crate::files::IndexedFile;
use crate::paths;
use crate::query::matcher;
use crate::query::numbers;
use crate::query::numbers::Written;
use crate::query::options;
use crate::query::options::Field;
use crate::query::pattern_laws;
use crate::query::words;
use crate::result_order::laws;
use crate::result_order::{ResultOrder, SortField, SortItem};
use crate::scanner;
use crate::scanner::entry;
use crate::scanner::entry::{FileKind, FileMetadata, ScannedFile};
use crate::scanner::events;
use crate::scanner::events::ChangeEvent;
use crate::scanner::namespace;
use crate::scanner::namespace::HostNames;
use crate::scanner::plan;
use crate::scanner::plan::Reconciliation;
use crate::scanner::selection;
use crate::text;
use core::cmp::Ordering;
use vstd::prelude::*;

verus! {

/// The entry that a call makes of what the host reports has each of the host's values under its own
/// name, whatever the others are.
pub proof fn law_made_entries_keep_what_the_host_reports(
    path: String,
    metadata: &FileMetadata,
    found: ScannedFile,
)
    requires
        call_ensures(entry::from_metadata, (path, metadata), found),
    ensures
        found.path@ == path@,
        found.size == metadata.size,
        found.modified == metadata.modified,
        found.changed == metadata.changed,
        found.created == metadata.created,
        found.modified_ns == metadata.modified_ns,
        found.changed_ns == metadata.changed_ns,
        found.flags == metadata.flags,
        found.file_id == metadata.file_id,
        found.parent_id == metadata.parent_id,
        found.volume_id@ == metadata.volume_id@,
        found.link_count == metadata.link_count,
        found.is_dir == (metadata.kind == FileKind::Directory),
        found.is_symlink == (metadata.kind == FileKind::Symlink),
{
    assert(found@.path == path@);
}

/// A pattern of question marks becomes an expression that fits the texts of as many characters
/// without a slash.
pub proof fn law_made_patterns_count_question_marks(
    pattern: &str,
    expression: String,
    t: Seq<char>,
)
    requires
        call_ensures(matcher::wildcard_pattern, (pattern,), expression),
        forall|i: int| 0 <= i < pattern@.len() ==> #[trigger] pattern@[i] == '?',
    ensures
        pattern_laws::whole_fits(expression@, t) == (t.len() == pattern@.len()
            && pattern_laws::without_slash(t)),
{
    pattern_laws::law_question_marks_count_characters(pattern@, t);
}

/// With a request to sort by a field first, of two rows that differ in it the one with the smaller
/// value comes first, whatever else they hold; last where descending order was asked for.
pub proof fn law_parsed_orders_sort_by_the_requested_field(
    items: &Vec<SortItem>,
    order: ResultOrder,
    first: &IndexedFile,
    second: &IndexedFile,
    said: Ordering,
)
    requires
        call_ensures(ResultOrder::parse, (Some(items),), Ok(order)),
        call_ensures(ResultOrder::compare, (&order, first, second), said),
        items@.len() > 0,
        laws::smaller_in(laws::asked_name(items@[0]), *first, *second),
    ensures
        said == (if items@[0].ascending == Some(false) {
            Ordering::Greater
        } else {
            Ordering::Less
        }),
{
    laws::law_rows_are_ordered_by_the_requested_field(items@, order.keys@, *first, *second);
}

/// An entry that the host shows becomes an entry, and one that it does not show a line with its
/// path and the host's reason.
pub proof fn law_looks_give_entries_or_reasons(
    path: &str,
    metadata: FileMetadata,
    reason: String,
    found: Result<ScannedFile, String>,
    refused: Result<ScannedFile, String>,
)
    requires
        call_ensures(entry::stat_entry, (path, Ok::<FileMetadata, String>(metadata)), found),
        call_ensures(entry::stat_entry, (path, Err::<FileMetadata, String>(reason)), refused),
    ensures
        found is Ok && refused is Err,
        (found->Ok_0).path@ == path@,
        (found->Ok_0).created == metadata.created,
        (found->Ok_0).modified == metadata.modified,
        (found->Ok_0).changed == metadata.changed,
        (found->Ok_0).size == metadata.size,
        (refused->Err_0)@ == path@ + seq![':', ' '] + reason@,
{
    reveal_strlit(": ");
    assert(": "@ =~= seq![':', ' ']);
    assert((found->Ok_0)@.path == path@);
}

/// An entry is not stored here exactly if the host's flag for that is set.
pub proof fn law_placeholders_have_their_flag(found: ScannedFile, dataless: bool)
    requires
        call_ensures(ScannedFile::is_dataless, (&found,), dataless),
    ensures
        dataless == (found.flags & 0x40000000 != 0),
{
}

/// What the words of relations mean: whether they look beyond the children of a folder, and
/// whether for files alone or for folders alone.
pub proof fn law_relation_words_say_depth_and_kind(
    key: &str,
    kind: Option<(bool, Option<bool>)>,
)
    requires
        call_ensures(options::relation_kind, (key,), kind),
    ensures
        key@ == "child"@ ==> kind == Some((false, None::<bool>)),
        key@ == "childfile"@ ==> kind == Some((false, Some(false))),
        key@ == "childfolder"@ ==> kind == Some((false, Some(true))),
        key@ == "descendant"@ ==> kind == Some((true, None::<bool>)),
        key@ == "descendantfile"@ ==> kind == Some((true, Some(false))),
        key@ == "descendantfolder"@ ==> kind == Some((true, Some(true))),
{
    words::lemma_metric_words();
}

/// An event that is made of a report keeps its identifier and its flags, and calls for a scan
/// exactly if the host lost track.
pub proof fn law_made_events_say_what_the_host_reports(
    path: &str,
    event_id: u64,
    flags: u32,
    names: &HostNames,
    event: ChangeEvent,
)
    requires
        call_ensures(ChangeEvent::from_flags, (path, event_id, flags, names), event),
    ensures
        event.event_id == event_id,
        event.flags == flags,
        event.path@ == names.observed(path@),
        event.must_rescan == scanner::laws::lost_track(flags),
        event.root_changed == (flags & 0x20 != 0 || flags & 0x40 != 0 || flags & 0x80 != 0),
{
    scanner::laws::law_events_say_what_the_host_reports(*names, path@, event_id, flags);
    assert(event@.event_id == event_id);
}

/// The plan for some events scans, for each event in a root, the tree that was created, removed or
/// renamed, or whose owner or attributes changed, whether it is a directory or not; and every
/// entry that is no directory.
pub proof fn law_made_plans_scan_changed_trees(
    roots: &[String],
    changes: &[ChangeEvent],
    names: &HostNames,
    work: Reconciliation,
    i: int,
    root: Seq<char>,
)
    requires
        call_ensures(plan::reconciliation_plan, (roots, changes, names), work),
        0 <= i < changes@.len(),
        selection::scopes_of(*names, text::texts(roots@)).contains(root),
        paths::path_starts_with(changes@[i].path@, root),
        namespace::in_namespace(
            changes@[i].path@,
            selection::scopes_of(*names, text::texts(roots@)),
        ),
        changes@[i].path@ != "/System/Volumes"@,
        changes@[i].flags & 0x10 == 0,
        changes@[i].flags & 0x0e == 0,
        !scanner::laws::only_mounts(changes@[i].flags),
        scanner::laws::changes_tree(changes@[i].flags) || !scanner::laws::of_directory(
            changes@[i].flags,
        ),
    ensures
        namespace::covered(
            text::texts(work.recursive@),
            selection::scope_of(*names, changes@[i].path@),
        ),
{
    let list = events::event_views(changes@);
    let event = changes@[i]@;
    assert(list[i] == event);
    assert(list.contains(event));
    scanner::laws::law_plans_answer_each_event(
        work,
        *names,
        text::texts(roots@),
        list,
        None,
        event,
        root,
    );
}

/// The plan for some events, made without the cursor of a completed scan, scans what each mount in
/// a root concerns.
pub proof fn law_made_plans_count_every_mount(
    roots: &[String],
    changes: &[ChangeEvent],
    names: &HostNames,
    work: Reconciliation,
    i: int,
    root: Seq<char>,
)
    requires
        call_ensures(plan::reconciliation_plan, (roots, changes, names), work),
        0 <= i < changes@.len(),
        selection::scopes_of(*names, text::texts(roots@)).contains(root),
        paths::path_starts_with(changes@[i].path@, root),
        namespace::in_namespace(
            changes@[i].path@,
            selection::scopes_of(*names, text::texts(roots@)),
        ),
        changes@[i].path@ != "/System/Volumes"@,
        scanner::laws::only_mounts(changes@[i].flags),
        changes@[i].must_rescan,
    ensures
        namespace::covered(
            text::texts(work.recursive@),
            selection::scope_of(*names, changes@[i].path@),
        ),
{
    let list = events::event_views(changes@);
    let event = changes@[i]@;
    assert(list[i] == event);
    assert(list.contains(event));
    scanner::laws::law_plans_without_a_cursor_count_every_mount(
        work,
        *names,
        text::texts(roots@),
        list,
        event,
        root,
    );
}

/// The field of a row that a search looks at is the field of that name.
pub proof fn law_fields_are_the_texts_of_that_name(file: IndexedFile, found: &str)
    ensures
        call_ensures(IndexedFile::text, (&file, Field::Name), found) ==> found@ == file.name@,
        call_ensures(IndexedFile::text, (&file, Field::Path), found) ==> found@ == file.path@,
        call_ensures(IndexedFile::text, (&file, Field::Parent), found) ==> found@ == file.parent@,
{
}

/// A path starts with another exactly if its components do, one after the other; its parent has
/// all of its components but the last.
pub proof fn law_paths_are_compared_by_components(
    path: &str,
    base: &str,
    starts: bool,
    up: Option<String>,
)
    requires
        call_ensures(paths::starts_with, (path, base), starts),
        call_ensures(paths::parent, (path,), up),
    ensures
        starts == (paths::components(base@).len() <= paths::components(path@).len() && (forall|
            i: int,
        |
            0 <= i < paths::components(base@).len() ==> #[trigger] paths::components(base@)[i]
                == paths::components(path@)[i])),
        up is Some ==> paths::components((up->0)@) == paths::components(path@).drop_last(),
{
    paths::law_parent_components(path@);
    let (a, b) = (paths::components(base@), paths::components(path@));
    if a.len() <= b.len() && forall|i: int| 0 <= i < a.len() ==> #[trigger] a[i] == b[i] {
        assert(b.subrange(0, a.len() as int) =~= a);
    }
    if starts {
        assert forall|i: int| 0 <= i < a.len() implies #[trigger] a[i] == b[i] by {
            assert(b.subrange(0, a.len() as int)[i] == b[i]);
        }
    }
}

/// Going down to a name and up again leads back.
pub proof fn law_two_dots_lead_up(base: Seq<char>, name: Seq<char>)
    requires
        paths::has_root(base),
        paths::is_component(name),
        !name.contains('/'),
        name != seq!['.', '.'],
    ensures
        paths::lexical(base + seq!['/'] + name + seq!['/'] + seq!['.', '.']) == paths::lexical(base),
{
    let down = base + seq!['/'] + name;
    let dots = seq!['.', '.'];
    paths::lemma_child_components(base, name);
    assert(paths::is_component(dots)) by {
        assert(dots.len() == 2 && seq!['.'].len() == 1);
    }
    assert(!dots.contains('/')) by {
        assert(dots[0] == '.' && dots[1] == '.');
    }
    paths::lemma_child_components(down, dots);
    let parts = paths::components(base);
    let all = parts.push(name).push(dots);
    assert(paths::components(down + seq!['/'] + dots) == all);
    assert(all.drop_last() =~= parts.push(name));
    assert(parts.push(name).drop_last() =~= parts);
    assert(name != seq!['/'] && name != seq!['.']) by {
        assert(seq!['/'][0] == '/');
        assert(name.len() > 0 && name[0] == '/' ==> name.contains('/'));
    }
    let before = paths::resolved(parts);
    assert(paths::resolved(parts.push(name)) == before.push(name));
    assert(before.push(name).drop_last() =~= before);
    assert(paths::resolved(all) == before);
}

/// A number is written as digits and a unit: both are told apart where the letters begin.
pub proof fn law_numbers_are_digits_and_a_unit(
    digits: Seq<char>,
    unit: Seq<char>,
    asked: &str,
    written: Written,
)
    requires
        call_ensures(numbers::written_number, (asked,), written),
        asked@ == digits + unit,
        digits.len() > 0,
        forall|i: int|
            0 <= i < digits.len() ==> '0' <= #[trigger] digits[i] <= '9' || digits[i] == '.',
        forall|i: int| 0 <= i < unit.len() ==> 'a' <= #[trigger] unit[i] <= 'z',
    ensures
        written.digits@ == digits,
        written.power == numbers::unit_power(unit),
{
    let all = digits + unit;
    assert forall|i: int| 0 <= i < all.len() implies ('0' <= #[trigger] all[i] <= '9' || all[i]
        == '.' || 'a' <= all[i] <= 'z') by {
        if i < digits.len() {
            assert(all[i] == digits[i]);
        } else {
            assert(all[i] == unit[i - digits.len()]);
        }
    }
    assert(all[0] == digits[0]);
    assert(all.last() == all[all.len() - 1]);
    assert(numbers::without_start(all) == all);
    assert(numbers::without_end(all) == all);
    assert(text::lower(all) =~= all);
    lemma_letter_at(all, digits.len() as int);
    assert(all.take(digits.len() as int) =~= digits);
    assert(all.skip(digits.len() as int) =~= unit);
}

proof fn lemma_letter_at(all: Seq<char>, at: int)
    requires
        0 <= at <= all.len(),
        forall|i: int| 0 <= i < at ==> !numbers::is_letter(#[trigger] all[i]),
        at < all.len() ==> numbers::is_letter(all[at]),
    ensures
        numbers::letter_at(all) == at,
    decreases all.len(),
{
    if all.len() > 0 && at > 0 {
        let rest = all.drop_first();
        assert(!numbers::is_letter(all[0]));
        assert forall|i: int| 0 <= i < at - 1 implies !numbers::is_letter(#[trigger] rest[i]) by {
            assert(rest[i] == all[i + 1]);
        }
        lemma_letter_at(rest, at - 1);
    }
}

/// Without a request rows are ordered by name, and the order by path is one by path; the direction
/// of an order by path is the one that was asked for.
pub proof fn law_ready_orders_are_by_name_and_by_path(
    by_name: ResultOrder,
    by_path: ResultOrder,
    order: ResultOrder,
    direction: Option<bool>,
)
    requires
        call_ensures(ResultOrder::name, (), by_name),
        call_ensures(ResultOrder::path, (), by_path),
        call_ensures(ResultOrder::primary_path_direction, (&order,), direction),
    ensures
        by_name.keys@ == seq![(SortField::Name, true)],
        by_path.keys@ == seq![(SortField::Path, true)],
        direction is Some ==> order.keys@.len() > 0 && order.keys@[0] == (
            SortField::Path,
            direction->0,
        ),
        order.keys@.len() > 0 && order.keys@[0].0 == SortField::Path ==> direction == Some(
            order.keys@[0].1,
        ),
{
}

} // verus!
