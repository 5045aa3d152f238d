//! Relations between directories and what they hold, settled for one snapshot.
use crate::bitmaps;
use crate::bitmaps::slot_list;
use crate::cancellation;
use crate::files::IndexedFile;
use crate::query::evaluate;
use crate::query::evaluate::{Mode, Question, Verdict};
use crate::query::laws;
use crate::query::model;
use crate::query::model::{Query, QueryView, ResolvedPredicate, Term, TermView};
use crate::query::options;
use crate::query::options::metric_name;
use crate::relations::hierarchy;
use crate::relations::hierarchy::{Coverage, Hierarchy};
use crate::relations::topology;
use crate::search;
use crate::snapshot;
use crate::snapshot::Snapshot;
use crate::text;
use crate::text::same_text;
use crate::text_order;
use roaring::RoaringTreemap;
use vstd::prelude::*;

verus! {

/// The contents by which a row is judged.
pub open spec fn body_for(
    query: QueryView,
    file: IndexedFile,
    content: spec_fn(IndexedFile) -> Option<Seq<char>>,
) -> Option<Seq<char>> {
    if evaluate::asks(query, Question::Content) {
        content(file)
    } else {
        None
    }
}

/// What a query says of a row, with what is missing unknown.
pub open spec fn said_of(
    query: QueryView,
    file: IndexedFile,
    content: spec_fn(IndexedFile) -> Option<Seq<char>>,
) -> Verdict {
    evaluate::verdict(Mode::Indexed, query, file, body_for(query, file, content))
}

/// A row counts for a directory: it is anywhere below it, or directly in it.
pub open spec fn counts_for(
    tree: Hierarchy,
    state: Snapshot,
    recursive: bool,
    slot: u32,
    d: int,
) -> bool {
    let dirs = tree.dirs(state);
    let file = state.rows()[slot as int];
    if recursive {
        topology::lies_above(dirs[d], file.path@)
    } else {
        topology::nearest(dirs, file.path@) == Some(d) && file.parent@ == dirs[d]
    }
}

/// Some row that counts for a directory matches.
pub open spec fn some_match(
    tree: Hierarchy,
    state: Snapshot,
    recursive: bool,
    query: QueryView,
    content: spec_fn(IndexedFile) -> Option<Seq<char>>,
    d: int,
) -> bool {
    exists|slot: u32| #[trigger]
        state.slots().contains(slot) && counts_for(tree, state, recursive, slot, d) && said_of(
            query,
            state.rows()[slot as int],
            content,
        ) is True
}

/// Of some row that counts for a directory it is unknown whether it matches, or rows may be
/// missing.
pub open spec fn some_unknown(
    tree: Hierarchy,
    state: Snapshot,
    coverage: Coverage,
    recursive: bool,
    query: QueryView,
    content: spec_fn(IndexedFile) -> Option<Seq<char>>,
    d: int,
) -> bool {
    let dirs = tree.dirs(state);
    ||| hierarchy::uncertain(coverage, dirs[d])
    ||| exists|slot: u32| #[trigger]
        state.slots().contains(slot) && counts_for(tree, state, recursive, slot, d) && said_of(
            query,
            state.rows()[slot as int],
            content,
        ) is Unknown
    ||| recursive && exists|c: int|
        0 <= c < dirs.len() && topology::lies_above(dirs[d], #[trigger] dirs[c])
            && hierarchy::uncertain(coverage, dirs[c])
}

/// The ids of the directories for which a relation holds.
pub open spec fn related_ids(
    tree: Hierarchy,
    state: Snapshot,
    recursive: bool,
    query: QueryView,
    content: spec_fn(IndexedFile) -> Option<Seq<char>>,
) -> Set<u64> {
    Set::new(
        |id: u64|
            exists|d: int|
                0 <= d < tree.directory_slots@.len() && directory_id(tree, state, d) == id
                    && #[trigger] some_match(tree, state, recursive, query, content, d),
    )
}

/// The ids of the directories for which it is unknown whether a relation holds.
pub open spec fn unknown_ids(
    tree: Hierarchy,
    state: Snapshot,
    coverage: Coverage,
    recursive: bool,
    query: QueryView,
    content: spec_fn(IndexedFile) -> Option<Seq<char>>,
) -> Set<u64> {
    Set::new(
        |id: u64|
            exists|d: int|
                0 <= d < tree.directory_slots@.len() && directory_id(tree, state, d) == id
                    && !some_match(tree, state, recursive, query, content, d)
                    && #[trigger] some_unknown(
                    tree,
                    state,
                    coverage,
                    recursive,
                    query,
                    content,
                    d,
                ),
    )
}

/// The row id of a directory.
pub open spec fn directory_id(tree: Hierarchy, state: Snapshot, d: int) -> u64 {
    state.rows()[tree.directory_slots@[d] as int].id as u64
}

/// A number that the index knows of a directory.
pub open spec fn metric_of(tree: Hierarchy, d: int, field: Seq<char>) -> Option<int> {
    if field == "foldersize"@ {
        match tree.sizes@[d] {
            Some(size) => Some(size as int),
            None => None,
        }
    } else if field == "childcount"@ {
        Some(tree.own_files@[d] + tree.own_folders@[d])
    } else if field == "childfilecount"@ {
        Some(tree.own_files@[d] as int)
    } else if field == "childfoldercount"@ {
        Some(tree.own_folders@[d] as int)
    } else if field == "descendantcount"@ {
        Some(tree.all_files@[d] + tree.all_folders@[d])
    } else if field == "descendantfilecount"@ {
        Some(tree.all_files@[d] as int)
    } else {
        Some(tree.all_folders@[d] as int)
    }
}

/// That number, where the index holds everything below the directory.
pub open spec fn known_metric(
    tree: Hierarchy,
    state: Snapshot,
    coverage: Coverage,
    d: int,
    field: Seq<char>,
) -> Option<int> {
    if hierarchy::uncertain(coverage, tree.dirs(state)[d]) {
        None
    } else {
        metric_of(tree, d, field)
    }
}

/// The field of a term about numbers.
pub open spec fn number_field(term: TermView) -> Seq<char> {
    match term {
        TermView::Number { field, .. } => field,
        TermView::Unknown { field, .. } => field,
        _ => Seq::empty(),
    }
}

/// A directory satisfies a term about its numbers.
pub open spec fn metric_holds(
    tree: Hierarchy,
    state: Snapshot,
    coverage: Coverage,
    term: TermView,
    d: int,
) -> bool {
    let value = known_metric(tree, state, coverage, d, number_field(term));
    (term is Unknown || value is Some) && evaluate::number_truth(term, value)
}

/// It is unknown whether a directory satisfies a term about its numbers.
pub open spec fn metric_unknown(
    tree: Hierarchy,
    state: Snapshot,
    coverage: Coverage,
    term: TermView,
    d: int,
) -> bool {
    !(term is Unknown) && known_metric(tree, state, coverage, d, number_field(term)) is None
}

pub open spec fn metric_ids(
    tree: Hierarchy,
    state: Snapshot,
    coverage: Coverage,
    term: TermView,
) -> Set<u64> {
    Set::new(
        |id: u64|
            exists|d: int|
                0 <= d < tree.directory_slots@.len() && directory_id(tree, state, d) == id
                    && #[trigger] metric_holds(tree, state, coverage, term, d),
    )
}

pub open spec fn metric_unknown_ids(
    tree: Hierarchy,
    state: Snapshot,
    coverage: Coverage,
    term: TermView,
) -> Set<u64> {
    Set::new(
        |id: u64|
            exists|d: int|
                0 <= d < tree.directory_slots@.len() && directory_id(tree, state, d) == id
                    && #[trigger] metric_unknown(tree, state, coverage, term, d),
    )
}

/// A term about the numbers of directories.
pub open spec fn is_metric_term(term: TermView) -> bool {
    (term is Number || term is Unknown) && options::is_metric_name(number_field(term))
}

/// A query with its relations settled for a snapshot.
pub open spec fn settled(
    tree: Hierarchy,
    state: Snapshot,
    coverage: Coverage,
    content: spec_fn(IndexedFile) -> Option<Seq<char>>,
    query: QueryView,
) -> QueryView
    decreases query,
{
    match query {
        QueryView::All => query,
        QueryView::And(children) => QueryView::And(
            settled_all(tree, state, coverage, content, children),
        ),
        QueryView::Or(children) => QueryView::Or(
            settled_all(tree, state, coverage, content, children),
        ),
        QueryView::Not(child) => QueryView::Not(
            Box::new(settled(tree, state, coverage, content, *child)),
        ),
        QueryView::Term(term) => match term {
            TermView::Related { recursive, query: inner } => {
                let part = settled(tree, state, coverage, content, *inner);
                QueryView::Term(
                    TermView::Resolved {
                        yes: related_ids(tree, state, recursive, part, content),
                        unknown: unknown_ids(tree, state, coverage, recursive, part, content),
                    },
                )
            },
            _ => if is_metric_term(term) {
                QueryView::Term(
                    TermView::Resolved {
                        yes: metric_ids(tree, state, coverage, term),
                        unknown: metric_unknown_ids(tree, state, coverage, term),
                    },
                )
            } else {
                query
            },
        },
    }
}

/// The queries of a list with their relations settled.
pub open spec fn settled_all(
    tree: Hierarchy,
    state: Snapshot,
    coverage: Coverage,
    content: spec_fn(IndexedFile) -> Option<Seq<char>>,
    queries: Seq<QueryView>,
) -> Seq<QueryView>
    decreases queries,
{
    if queries.len() == 0 {
        queries
    } else {
        settled_all(tree, state, coverage, content, queries.drop_last()).push(
            settled(tree, state, coverage, content, queries.last()),
        )
    }
}

/// Of some directory it stays unknown whether a relation or a number holds.
pub open spec fn leaves_open(
    tree: Hierarchy,
    state: Snapshot,
    coverage: Coverage,
    content: spec_fn(IndexedFile) -> Option<Seq<char>>,
    query: QueryView,
) -> bool
    decreases query,
{
    match query {
        QueryView::All => false,
        QueryView::And(children) => any_left_open(tree, state, coverage, content, children),
        QueryView::Or(children) => any_left_open(tree, state, coverage, content, children),
        QueryView::Not(child) => leaves_open(tree, state, coverage, content, *child),
        QueryView::Term(term) => match term {
            TermView::Related { recursive, query: inner } => {
                let part = settled(tree, state, coverage, content, *inner);
                leaves_open(tree, state, coverage, content, *inner) || unknown_ids(
                    tree,
                    state,
                    coverage,
                    recursive,
                    part,
                    content,
                ) != Set::<u64>::empty()
            },
            _ => is_metric_term(term) && metric_unknown_ids(tree, state, coverage, term)
                != Set::<u64>::empty(),
        },
    }
}

pub open spec fn any_left_open(
    tree: Hierarchy,
    state: Snapshot,
    coverage: Coverage,
    content: spec_fn(IndexedFile) -> Option<Seq<char>>,
    queries: Seq<QueryView>,
) -> bool
    decreases queries,
{
    queries.len() > 0 && (any_left_open(tree, state, coverage, content, queries.drop_last())
        || leaves_open(tree, state, coverage, content, queries.last()))
}

/// A relation of a query is about rows of which something is asked.
pub open spec fn relation_asks(query: QueryView, question: Question) -> bool
    decreases query,
{
    match query {
        QueryView::All => false,
        QueryView::And(children) => any_relation_asks(children, question),
        QueryView::Or(children) => any_relation_asks(children, question),
        QueryView::Not(child) => relation_asks(*child, question),
        QueryView::Term(term) => match term {
            TermView::Related { query: inner, .. } => evaluate::asks(*inner, question)
                || relation_asks(*inner, question),
            _ => false,
        },
    }
}

pub open spec fn any_relation_asks(queries: Seq<QueryView>, question: Question) -> bool
    decreases queries,
{
    queries.len() > 0 && (any_relation_asks(queries.drop_last(), question) || relation_asks(
        queries.last(),
        question,
    ))
}

/// Judging the rows that count for a directory comes to an expression.
pub open spec fn part_reaches(
    tree: Hierarchy,
    state: Snapshot,
    recursive: bool,
    part: QueryView,
    content: spec_fn(IndexedFile) -> Option<Seq<char>>,
) -> bool {
    exists|slot: u32| #[trigger]
        state.slots().contains(slot) && placed(state.rows(), tree.dirs(state), recursive, slot)
            && evaluate::reaches(
            Mode::Indexed,
            part,
            state.rows()[slot as int],
            body_for(part, state.rows()[slot as int], content),
        )
}

/// Settling the relations of a query comes to an expression.
pub open spec fn relation_reaches(
    tree: Hierarchy,
    state: Snapshot,
    coverage: Coverage,
    content: spec_fn(IndexedFile) -> Option<Seq<char>>,
    query: QueryView,
) -> bool
    decreases query,
{
    match query {
        QueryView::All => false,
        QueryView::And(children) => any_relation_reaches(tree, state, coverage, content, children),
        QueryView::Or(children) => any_relation_reaches(tree, state, coverage, content, children),
        QueryView::Not(child) => relation_reaches(tree, state, coverage, content, *child),
        QueryView::Term(term) => match term {
            TermView::Related { recursive, query: inner } => relation_reaches(
                tree,
                state,
                coverage,
                content,
                *inner,
            ) || part_reaches(
                tree,
                state,
                recursive,
                settled(tree, state, coverage, content, *inner),
                content,
            ),
            _ => false,
        },
    }
}

pub open spec fn any_relation_reaches(
    tree: Hierarchy,
    state: Snapshot,
    coverage: Coverage,
    content: spec_fn(IndexedFile) -> Option<Seq<char>>,
    queries: Seq<QueryView>,
) -> bool
    decreases queries,
{
    queries.len() > 0 && (any_relation_reaches(
        tree,
        state,
        coverage,
        content,
        queries.drop_last(),
    ) || relation_reaches(tree, state, coverage, content, queries.last()))
}

/// Why relations cannot be settled: it was cancelled, contents could not be read, or an
/// expression search failed that settling comes to, by the contents that are found.
pub open spec fn resolve_fails<
    S: Fn(&IndexedFile) -> Result<Option<String>, String>,
    C: Fn() -> bool,
>(
    runs: bool,
    reads: bool,
    reaches: spec_fn(spec_fn(IndexedFile) -> Option<Seq<char>>) -> bool,
    content: S,
    cancelled: C,
    reason: String,
) -> bool {
    ||| reason@ == "Query cancelled"@ && call_ensures(cancelled, (), true)
    ||| reads && exists|file: &IndexedFile| #[trigger] call_ensures(content, (file,), Err(reason))
    ||| runs && text::begins(reason@, "PCRE2 matching failed: "@) && forall|
        c: spec_fn(IndexedFile) -> Option<Seq<char>>,
    | #[trigger] search::stored_as(content, c) ==> reaches(c)
}

/// A row counts for its closest directory.
pub open spec fn placed(
    rows: Seq<IndexedFile>,
    dirs: Seq<Seq<char>>,
    recursive: bool,
    slot: u32,
) -> bool {
    let file = rows[slot as int];
    topology::nearest(dirs, file.path@) matches Some(d) && (recursive || file.parent@ == dirs[d])
}

/// What was found out about rows: what a query says of those that count for a directory.
pub open spec fn heard<S: Fn(&IndexedFile) -> Result<Option<String>, String>>(
    rows: Seq<IndexedFile>,
    dirs: Seq<Seq<char>>,
    slots: Seq<u32>,
    verdicts: Seq<Verdict>,
    recursive: bool,
    query: QueryView,
    content: S,
) -> bool {
    &&& verdicts.len() <= slots.len()
    &&& forall|c: spec_fn(IndexedFile) -> Option<Seq<char>>, j: int|
        #![trigger search::stored_as(content, c), verdicts[j]]
        search::stored_as(content, c) && 0 <= j < verdicts.len() ==> verdicts[j] == (if placed(
            rows,
            dirs,
            recursive,
            slots[j],
        ) {
            said_of(query, rows[slots[j] as int], c)
        } else {
            Verdict::False
        })
}

/// A row with a verdict leads to a directory.
pub open spec fn brings(
    rows: Seq<IndexedFile>,
    dirs: Seq<Seq<char>>,
    slots: Seq<u32>,
    verdicts: Seq<Verdict>,
    from: int,
    j: int,
    d: int,
    wanted: Verdict,
) -> bool {
    verdicts[j] == wanted && topology::leads_to(dirs, from, rows[slots[j] as int].path@, d)
}

pub open spec fn any_brings(
    rows: Seq<IndexedFile>,
    dirs: Seq<Seq<char>>,
    slots: Seq<u32>,
    verdicts: Seq<Verdict>,
    from: int,
    d: int,
    wanted: Verdict,
) -> bool {
    exists|j: int|
        0 <= j < verdicts.len() && #[trigger] brings(
            rows,
            dirs,
            slots,
            verdicts,
            from,
            j,
            d,
            wanted,
        )
}

/// A directory of which rows may be missing leads to another.
pub open spec fn gap_below(dirs: Seq<Seq<char>>, coverage: Coverage, from: int, d: int) -> bool {
    exists|c: int|
        from <= c < dirs.len() && topology::leads_to(dirs, from, #[trigger] dirs[c], d)
            && hierarchy::uncertain(coverage, dirs[c])
}

/// Marks on directories say where the way from rows leads.
pub open spec fn marks(
    positive: Seq<bool>,
    unknown: Seq<bool>,
    rows: Seq<IndexedFile>,
    dirs: Seq<Seq<char>>,
    slots: Seq<u32>,
    verdicts: Seq<Verdict>,
    coverage: Coverage,
    from: int,
) -> bool {
    &&& positive.len() == dirs.len()
    &&& unknown.len() == dirs.len()
    &&& forall|d: int|
        0 <= d < dirs.len() ==> #[trigger] positive[d] == any_brings(
            rows,
            dirs,
            slots,
            verdicts,
            from,
            d,
            Verdict::True,
        )
    &&& forall|d: int|
        0 <= d < dirs.len() ==> #[trigger] unknown[d] == (hierarchy::uncertain(coverage, dirs[d])
            || any_brings(rows, dirs, slots, verdicts, from, d, Verdict::Unknown) || gap_below(
            dirs,
            coverage,
            from,
            d,
        ))
}

/// One more row leads to its closest directory.
proof fn lemma_one_more(
    rows: Seq<IndexedFile>,
    dirs: Seq<Seq<char>>,
    slots: Seq<u32>,
    verdicts: Seq<Verdict>,
    said: Verdict,
    d: int,
    wanted: Verdict,
)
    requires
        verdicts.len() < slots.len(),
        0 <= d < dirs.len(),
    ensures
        any_brings(rows, dirs, slots, verdicts.push(said), dirs.len() as int, d, wanted) == (
        any_brings(rows, dirs, slots, verdicts, dirs.len() as int, d, wanted) || (said == wanted
            && topology::nearest(dirs, rows[slots[verdicts.len() as int] as int].path@) == Some(
            d,
        ))),
{
    let count = dirs.len() as int;
    let more = verdicts.push(said);
    let path = rows[slots[verdicts.len() as int] as int].path@;
    topology::lemma_nearest(dirs, path);
    assert(topology::leads_to(dirs, count, path, d) == (topology::nearest(dirs, path) == Some(d)));
    if any_brings(rows, dirs, slots, more, count, d, wanted) {
        let j = choose|j: int|
            0 <= j < more.len() && #[trigger] brings(rows, dirs, slots, more, count, j, d, wanted);
        if j < verdicts.len() {
            assert(brings(rows, dirs, slots, verdicts, count, j, d, wanted));
        }
    }
    if any_brings(rows, dirs, slots, verdicts, count, d, wanted) {
        let j = choose|j: int|
            0 <= j < verdicts.len() && #[trigger] brings(
                rows,
                dirs,
                slots,
                verdicts,
                count,
                j,
                d,
                wanted,
            );
        assert(brings(rows, dirs, slots, more, count, j, d, wanted));
    }
    if said == wanted && topology::nearest(dirs, path) == Some(d) {
        assert(brings(rows, dirs, slots, more, count, verdicts.len() as int, d, wanted));
    }
}

/// Opening the way through one more directory brings what it has to its own directory.
proof fn lemma_step(
    rows: Seq<IndexedFile>,
    dirs: Seq<Seq<char>>,
    slots: Seq<u32>,
    verdicts: Seq<Verdict>,
    x: int,
    d: int,
    wanted: Verdict,
)
    requires
        text_order::ascending(dirs),
        0 <= x < dirs.len(),
        0 <= d < dirs.len(),
    ensures
        any_brings(rows, dirs, slots, verdicts, x, d, wanted) == (any_brings(
            rows,
            dirs,
            slots,
            verdicts,
            x + 1,
            d,
            wanted,
        ) || (topology::nearest(dirs, dirs[x]) == Some(d) && any_brings(
            rows,
            dirs,
            slots,
            verdicts,
            x + 1,
            x,
            wanted,
        ))),
{
    if any_brings(rows, dirs, slots, verdicts, x, d, wanted) {
        let j = choose|j: int|
            0 <= j < verdicts.len() && #[trigger] brings(
                rows,
                dirs,
                slots,
                verdicts,
                x,
                j,
                d,
                wanted,
            );
        topology::lemma_via_step(dirs, x, rows[slots[j] as int].path@, d);
        assert(brings(rows, dirs, slots, verdicts, x + 1, j, d, wanted) || brings(
            rows,
            dirs,
            slots,
            verdicts,
            x + 1,
            j,
            x,
            wanted,
        ));
    }
    if any_brings(rows, dirs, slots, verdicts, x + 1, d, wanted) {
        let j = choose|j: int|
            0 <= j < verdicts.len() && #[trigger] brings(
                rows,
                dirs,
                slots,
                verdicts,
                x + 1,
                j,
                d,
                wanted,
            );
        topology::lemma_via_step(dirs, x, rows[slots[j] as int].path@, d);
        assert(brings(rows, dirs, slots, verdicts, x, j, d, wanted));
    }
    if topology::nearest(dirs, dirs[x]) == Some(d) && any_brings(
        rows,
        dirs,
        slots,
        verdicts,
        x + 1,
        x,
        wanted,
    ) {
        let j = choose|j: int|
            0 <= j < verdicts.len() && #[trigger] brings(
                rows,
                dirs,
                slots,
                verdicts,
                x + 1,
                j,
                x,
                wanted,
            );
        topology::lemma_via_step(dirs, x, rows[slots[j] as int].path@, d);
        assert(brings(rows, dirs, slots, verdicts, x, j, d, wanted));
    }
}

proof fn lemma_gap_step(dirs: Seq<Seq<char>>, coverage: Coverage, x: int, d: int)
    requires
        text_order::ascending(dirs),
        0 <= x < dirs.len(),
        0 <= d < dirs.len(),
    ensures
        gap_below(dirs, coverage, x, d) == (gap_below(dirs, coverage, x + 1, d) || (
        topology::nearest(dirs, dirs[x]) == Some(d) && (hierarchy::uncertain(coverage, dirs[x])
            || gap_below(dirs, coverage, x + 1, x)))),
{
    topology::lemma_nearest(dirs, dirs[x]);
    if let Some(p) = topology::nearest(dirs, dirs[x]) {
        topology::lemma_above_has_lower_index(dirs, p, x);
    }
    assert(topology::leads_to(dirs, x, dirs[x], d) == (topology::nearest(dirs, dirs[x]) == Some(
        d,
    )));
    if gap_below(dirs, coverage, x, d) {
        let c = choose|c: int|
            x <= c < dirs.len() && topology::leads_to(dirs, x, #[trigger] dirs[c], d)
                && hierarchy::uncertain(coverage, dirs[c]);
        topology::lemma_via_step(dirs, x, dirs[c], d);
        if c > x {
            assert(topology::leads_to(dirs, x + 1, dirs[c], d) || topology::leads_to(
                dirs,
                x + 1,
                dirs[c],
                x,
            ));
        }
    }
    if gap_below(dirs, coverage, x + 1, d) {
        let c = choose|c: int|
            x + 1 <= c < dirs.len() && topology::leads_to(dirs, x + 1, #[trigger] dirs[c], d)
                && hierarchy::uncertain(coverage, dirs[c]);
        topology::lemma_via_step(dirs, x, dirs[c], d);
        assert(topology::leads_to(dirs, x, dirs[c], d));
    }
    if topology::nearest(dirs, dirs[x]) == Some(d) && gap_below(dirs, coverage, x + 1, x) {
        let c = choose|c: int|
            x + 1 <= c < dirs.len() && topology::leads_to(dirs, x + 1, #[trigger] dirs[c], x)
                && hierarchy::uncertain(coverage, dirs[c]);
        topology::lemma_via_step(dirs, x, dirs[c], d);
        assert(topology::leads_to(dirs, x, dirs[c], d));
    }
    if topology::nearest(dirs, dirs[x]) == Some(d) && hierarchy::uncertain(coverage, dirs[x]) {
        assert(topology::leads_to(dirs, x, dirs[x], d));
    }
}

fn flags_of(count: usize) -> (flags: Vec<bool>)
    ensures
        flags@.len() == count,
        forall|i: int| 0 <= i < count ==> !#[trigger] flags@[i],
{
    let mut flags: Vec<bool> = Vec::new();
    while flags.len() < count
        invariant
            flags@.len() <= count,
            forall|i: int| 0 <= i < flags@.len() ==> !#[trigger] flags@[i],
        decreases count - flags@.len(),
    {
        flags.push(false);
    }
    flags
}

/// Evaluate a settled query on every live row and mark the row's closest directory.
fn mark_rows<S: Fn(&IndexedFile) -> Result<Option<String>, String>, C: Fn() -> bool>(
    query: &Query,
    recursive: bool,
    state: &Snapshot,
    tree: &Hierarchy,
    list: &Vec<u32>,
    unknown: &mut Vec<bool>,
    content: &S,
    cancelled: &C,
    Ghost(coverage): Ghost<Coverage>,
) -> (result: Result<(Vec<bool>, Ghost<Seq<Verdict>>), String>)
    requires
        state.wf(),
        tree.describes(*state),
        !laws::relates(query@),
        list@.to_set() == state.slots(),
        old(unknown)@.len() == tree.directory_slots@.len(),
        forall|d: int|
            0 <= d < old(unknown)@.len() ==> #[trigger] old(unknown)@[d] == hierarchy::uncertain(
                coverage,
                tree.dirs(*state)[d],
            ),
        forall|f: &IndexedFile| #[trigger] call_requires(*content, (f,)),
        call_requires(*cancelled, ()),
    ensures
        match result {
            Ok((positive, verdicts)) => {
                &&& verdicts@.len() == list@.len()
                &&& heard(
                    state.rows(),
                    tree.dirs(*state),
                    list@,
                    verdicts@,
                    recursive,
                    query@,
                    *content,
                )
                &&& marks(
                    positive@,
                    final(unknown)@,
                    state.rows(),
                    tree.dirs(*state),
                    list@,
                    verdicts@,
                    coverage,
                    tree.directory_slots@.len() as int,
                )
            },
            Err(reason) => resolve_fails(
                evaluate::asks(query@, Question::Expressions),
                evaluate::asks(query@, Question::Content),
                |c: spec_fn(IndexedFile) -> Option<Seq<char>>|
                    part_reaches(*tree, *state, recursive, query@, c),
                *content,
                *cancelled,
                reason,
            ),
        },
{
    let needs = query.requires_content();
    let count = tree.directory_slots.len();
    let ghost rows = state.rows();
    let ghost dirs = tree.dirs(*state);
    let ghost mut verdicts: Seq<Verdict> = Seq::empty();
    let mut positive = flags_of(count);
    let mut next: usize = 0;
    while next < list.len()
        invariant
            next <= list@.len(),
            state.wf(),
            tree.describes(*state),
            !laws::relates(query@),
            needs == evaluate::asks(query@, Question::Content),
            list@.to_set() == state.slots(),
            count == tree.directory_slots@.len(),
            rows == state.rows(),
            dirs == tree.dirs(*state),
            dirs.len() == count,
            forall|f: &IndexedFile| #[trigger] call_requires(*content, (f,)),
            call_requires(*cancelled, ()),
            verdicts.len() == next,
            heard(rows, dirs, list@, verdicts, recursive, query@, *content),
            marks(positive@, unknown@, rows, dirs, list@, verdicts, coverage, count as int),
        decreases list@.len() - next,
    {
        if cancelled() {
            return Err("Query cancelled".to_owned());
        }
        let slot = list[next];
        assert(list@.contains(slot));
        assert(list@.to_set().contains(slot));
        assert(state.slots().contains(slot));
        let file = &state.entries[slot as usize];
        let ghost (yes, open, earlier) = (positive@, unknown@, verdicts);
        let mut place: Option<usize> = None;
        proof {
            topology::lemma_nearest(dirs, file.path@);
            assert(hierarchy::as_index(tree.parents@[slot as int]) == topology::nearest(
                dirs,
                file.path@,
            ));
        }
        if let Some(up) = tree.parents[slot as usize] {
            let d: usize = up as usize;
            let holder = tree.directory_slots[d];
            proof {
                hierarchy::lemma_directory(*tree, *state, d as int);
            }
            if recursive || same_text(
                file.parent.as_str(),
                state.entries[holder as usize].path.as_str(),
            ) {
                place = Some(d);
            }
        }
        let mut truth: Option<bool> = Some(false);
        if place.is_some() {
            let body = if needs {
                match content(file) {
                    Ok(body) => body,
                    Err(reason) => {
                        return Err(reason);
                    },
                }
            } else {
                None
            };
            let judged = match &body {
                Some(body) => query.indexed_truth(file, Some(body.as_str())),
                None => query.indexed_truth(file, None),
            };
            proof {
                laws::lemma_indexed_resolved(query@, *file, search::text_view(body));
            }
            truth = match judged {
                Ok(truth) => truth,
                Err(reason) => {
                    proof {
                        evaluate::lemma_reaches_asks(
                            Mode::Indexed,
                            query@,
                            *file,
                            search::text_view(body),
                        );
                        assert(placed(rows, dirs, recursive, slot));
                        assert forall|c: spec_fn(IndexedFile) -> Option<Seq<char>>| #[trigger]
                            search::stored_as(*content, c) implies part_reaches(
                            *tree,
                            *state,
                            recursive,
                            query@,
                            c,
                        ) by {
                            assert(body_for(query@, *file, c) == search::text_view(body));
                            assert(state.slots().contains(slot));
                        }
                    }
                    return Err(reason);
                },
            };
            assert(evaluate::verdict_of(truth) == evaluate::verdict(
                Mode::Indexed,
                query@,
                *file,
                search::text_view(body),
            ));
        }
        let ghost said = evaluate::verdict_of(truth);
        if let Some(d) = place {
            match truth {
                Some(value) => {
                    if value {
                        positive.set(d, true);
                    }
                },
                None => {
                    unknown.set(d, true);
                },
            }
        }
        proof {
            verdicts = verdicts.push(said);
            assert forall|d: int| 0 <= d < count implies #[trigger] positive@[d] == any_brings(
                rows,
                dirs,
                list@,
                verdicts,
                count as int,
                d,
                Verdict::True,
            ) by {
                lemma_one_more(rows, dirs, list@, earlier, said, d, Verdict::True);
                assert(yes[d] == any_brings(
                    rows,
                    dirs,
                    list@,
                    earlier,
                    count as int,
                    d,
                    Verdict::True,
                ));
            }
            assert forall|d: int| 0 <= d < count implies #[trigger] unknown@[d] == (
            hierarchy::uncertain(coverage, dirs[d]) || any_brings(
                rows,
                dirs,
                list@,
                verdicts,
                count as int,
                d,
                Verdict::Unknown,
            ) || gap_below(dirs, coverage, count as int, d)) by {
                lemma_one_more(rows, dirs, list@, earlier, said, d, Verdict::Unknown);
                assert(open[d] == (hierarchy::uncertain(coverage, dirs[d]) || any_brings(
                    rows,
                    dirs,
                    list@,
                    earlier,
                    count as int,
                    d,
                    Verdict::Unknown,
                ) || gap_below(dirs, coverage, count as int, d)));
            }
            assert forall|c: spec_fn(IndexedFile) -> Option<Seq<char>>, j: int|
                #![trigger search::stored_as(*content, c), verdicts[j]]
                search::stored_as(*content, c) && 0 <= j < verdicts.len() implies verdicts[j] == (
            if placed(rows, dirs, recursive, list@[j]) {
                said_of(query@, rows[list@[j] as int], c)
            } else {
                Verdict::False
            }) by {
                if j < earlier.len() {
                    assert(verdicts[j] == earlier[j]);
                }
            }
        }
        next = next + 1;
    }
    Ok((positive, Ghost(verdicts)))
}

/// Carry the marks of every directory up to the directories above it.
fn spread<C: Fn() -> bool>(
    state: &Snapshot,
    tree: &Hierarchy,
    positive: &mut Vec<bool>,
    unknown: &mut Vec<bool>,
    cancelled: &C,
    Ghost(list): Ghost<Seq<u32>>,
    Ghost(verdicts): Ghost<Seq<Verdict>>,
    Ghost(coverage): Ghost<Coverage>,
) -> (result: Result<(), String>)
    requires
        state.wf(),
        tree.describes(*state),
        marks(
            old(positive)@,
            old(unknown)@,
            state.rows(),
            tree.dirs(*state),
            list,
            verdicts,
            coverage,
            tree.directory_slots@.len() as int,
        ),
        call_requires(*cancelled, ()),
    ensures
        match result {
            Ok(_) => marks(
                final(positive)@,
                final(unknown)@,
                state.rows(),
                tree.dirs(*state),
                list,
                verdicts,
                coverage,
                0,
            ),
            Err(reason) => reason@ == "Query cancelled"@ && call_ensures(*cancelled, (), true),
        },
{
    let ghost rows = state.rows();
    let ghost dirs = tree.dirs(*state);
    let mut left = tree.directory_slots.len();
    while left > 0
        invariant
            left <= tree.directory_slots@.len(),
            state.wf(),
            tree.describes(*state),
            rows == state.rows(),
            dirs == tree.dirs(*state),
            dirs.len() == tree.directory_slots@.len(),
            call_requires(*cancelled, ()),
            marks(positive@, unknown@, rows, dirs, list, verdicts, coverage, left as int),
        decreases left,
    {
        if cancelled() {
            return Err("Query cancelled".to_owned());
        }
        let x: usize = left - 1;
        let slot = tree.directory_slots[x];
        let ghost (yes, open) = (positive@, unknown@);
        proof {
            hierarchy::lemma_directory(*tree, *state, x as int);
        }
        proof {
            topology::lemma_nearest(dirs, dirs[x as int]);
            assert(hierarchy::as_index(tree.parents@[slot as int]) == topology::nearest(
                dirs,
                rows[slot as int].path@,
            ));
            if let Some(p) = topology::nearest(dirs, dirs[x as int]) {
                topology::lemma_above_has_lower_index(dirs, p, x as int);
            }
        }
        if let Some(up) = tree.parents[slot as usize] {
            let d: usize = up as usize;
            if positive[x] {
                positive.set(d, true);
            }
            if unknown[x] {
                unknown.set(d, true);
            }
        }
        proof {
            assert forall|d: int| 0 <= d < dirs.len() implies #[trigger] positive@[d]
                == any_brings(rows, dirs, list, verdicts, x as int, d, Verdict::True) by {
                lemma_step(rows, dirs, list, verdicts, x as int, d, Verdict::True);
                assert(yes[d] == any_brings(
                    rows,
                    dirs,
                    list,
                    verdicts,
                    x + 1,
                    d,
                    Verdict::True,
                ));
                assert(yes[x as int] == any_brings(
                    rows,
                    dirs,
                    list,
                    verdicts,
                    x + 1,
                    x as int,
                    Verdict::True,
                ));
            }
            assert forall|d: int| 0 <= d < dirs.len() implies #[trigger] unknown@[d] == (
            hierarchy::uncertain(coverage, dirs[d]) || any_brings(
                rows,
                dirs,
                list,
                verdicts,
                x as int,
                d,
                Verdict::Unknown,
            ) || gap_below(dirs, coverage, x as int, d)) by {
                lemma_step(rows, dirs, list, verdicts, x as int, d, Verdict::Unknown);
                lemma_gap_step(dirs, coverage, x as int, d);
                assert(open[d] == (hierarchy::uncertain(coverage, dirs[d]) || any_brings(
                    rows,
                    dirs,
                    list,
                    verdicts,
                    x + 1,
                    d,
                    Verdict::Unknown,
                ) || gap_below(dirs, coverage, x + 1, d)));
                assert(open[x as int] == (hierarchy::uncertain(coverage, dirs[x as int])
                    || any_brings(
                    rows,
                    dirs,
                    list,
                    verdicts,
                    x + 1,
                    x as int,
                    Verdict::Unknown,
                ) || gap_below(dirs, coverage, x + 1, x as int)));
            }
        }
        left = x;
    }
    Ok(())
}

/// The ids of the directories with a mark.
pub open spec fn marked_ids(tree: Hierarchy, state: Snapshot, flags: Seq<bool>) -> Set<u64> {
    Set::new(
        |id: u64|
            exists|d: int|
                0 <= d < flags.len() && directory_id(tree, state, d) == id && #[trigger] flags[d],
    )
}

fn collect_ids(tree: &Hierarchy, state: &Snapshot, flags: &Vec<bool>) -> (ids: RoaringTreemap)
    requires
        state.wf(),
        tree.describes(*state),
        flags@.len() == tree.directory_slots@.len(),
    ensures
        bitmaps::ids_in(ids) == marked_ids(*tree, *state, flags@),
{
    let mut ids = RoaringTreemap::new();
    let mut next: usize = 0;
    assert(bitmaps::ids_in(ids) =~= marked_ids(*tree, *state, flags@.take(0)));
    while next < flags.len()
        invariant
            next <= flags@.len(),
            state.wf(),
            tree.describes(*state),
            flags@.len() == tree.directory_slots@.len(),
            bitmaps::ids_in(ids) == marked_ids(*tree, *state, flags@.take(next as int)),
        decreases flags@.len() - next,
    {
        let slot = tree.directory_slots[next];
        proof {
            hierarchy::lemma_directory(*tree, *state, next as int);
        }
        let ghost before = bitmaps::ids_in(ids);
        let ghost (done, part) = (flags@.take(next as int), flags@.take(next + 1));
        let id: u64 = state.entries[slot as usize].id as u64;
        if flags[next] {
            ids.insert(id);
        }
        proof {
            let want = marked_ids(*tree, *state, part);
            assert forall|t: u64| #[trigger] bitmaps::ids_in(ids).contains(t) == want.contains(
                t,
            ) by {
                if want.contains(t) {
                    let d = choose|d: int|
                        0 <= d < part.len() && directory_id(*tree, *state, d) == t
                            && #[trigger] part[d];
                    if d < next {
                        assert(done[d]);
                        assert(before.contains(t));
                    }
                }
                if before.contains(t) {
                    let d = choose|d: int|
                        0 <= d < done.len() && directory_id(*tree, *state, d) == t
                            && #[trigger] done[d];
                    assert(part[d]);
                }
                if flags@[next as int] {
                    assert(part[next as int]);
                }
            }
            assert(bitmaps::ids_in(ids) =~= want);
        }
        next = next + 1;
    }
    assert(flags@.take(next as int) =~= flags@);
    ids
}

/// The directories that are marked unknown and not positive.
fn undecided(positive: &Vec<bool>, unknown: &Vec<bool>) -> (flags: Vec<bool>)
    requires
        positive@.len() == unknown@.len(),
    ensures
        flags@.len() == positive@.len(),
        forall|d: int|
            0 <= d < flags@.len() ==> #[trigger] flags@[d] == (!positive@[d] && unknown@[d]),
{
    let mut flags: Vec<bool> = Vec::new();
    while flags.len() < positive.len()
        invariant
            flags@.len() <= positive@.len(),
            positive@.len() == unknown@.len(),
            forall|d: int|
                0 <= d < flags@.len() ==> #[trigger] flags@[d] == (!positive@[d] && unknown@[d]),
        decreases positive@.len() - flags@.len(),
    {
        let next = flags.len();
        flags.push(!positive[next] && unknown[next]);
    }
    flags
}

/// With the way open, marks say of every directory what is asked.
proof fn lemma_marks_answer<S: Fn(&IndexedFile) -> Result<Option<String>, String>>(
    tree: Hierarchy,
    state: Snapshot,
    coverage: Coverage,
    recursive: bool,
    query: QueryView,
    content: S,
    c: spec_fn(IndexedFile) -> Option<Seq<char>>,
    list: Seq<u32>,
    verdicts: Seq<Verdict>,
    positive: Seq<bool>,
    unknown: Seq<bool>,
    d: int,
)
    requires
        state.wf(),
        tree.describes(state),
        list.to_set() == state.slots(),
        verdicts.len() == list.len(),
        heard(state.rows(), tree.dirs(state), list, verdicts, recursive, query, content),
        search::stored_as(content, c),
        marks(
            positive,
            unknown,
            state.rows(),
            tree.dirs(state),
            list,
            verdicts,
            coverage,
            if recursive {
                0
            } else {
                tree.directory_slots@.len() as int
            },
        ),
        0 <= d < tree.directory_slots@.len(),
    ensures
        positive[d] == some_match(tree, state, recursive, query, c, d),
        unknown[d] == some_unknown(tree, state, coverage, recursive, query, c, d),
{
    let rows = state.rows();
    let dirs = tree.dirs(state);
    let from: int = if recursive {
        0
    } else {
        dirs.len() as int
    };
    assert forall|j: int| 0 <= j < list.len() implies state.slots().contains(#[trigger] list[j])
        && counts_for(tree, state, recursive, list[j], d) == (placed(rows, dirs, recursive, list[j])
        && topology::leads_to(dirs, from, rows[list[j] as int].path@, d)) by {
        let file = rows[list[j] as int];
        assert(list.contains(list[j]));
        assert(list.to_set().contains(list[j]));
        topology::lemma_nearest(dirs, file.path@);
        if recursive {
            topology::lemma_via_all(dirs, file.path@, d);
            if topology::lies_above(dirs[d], file.path@) {
                topology::lemma_nearest_is_closest(dirs, file.path@, d);
            }
        }
    }
    lemma_found(tree, state, recursive, query, content, c, list, verdicts, from, d, Verdict::True);
    lemma_found(
        tree,
        state,
        recursive,
        query,
        content,
        c,
        list,
        verdicts,
        from,
        d,
        Verdict::Unknown,
    );
    if recursive {
        assert forall|k: int| 0 <= k < dirs.len() implies topology::leads_to(
            dirs,
            0,
            #[trigger] dirs[k],
            d,
        ) == topology::lies_above(dirs[d], dirs[k]) by {
            topology::lemma_via_all(dirs, dirs[k], d);
        }
    }
}

/// Some row that counts for a directory has a verdict.
pub open spec fn some_row(
    tree: Hierarchy,
    state: Snapshot,
    recursive: bool,
    query: QueryView,
    content: spec_fn(IndexedFile) -> Option<Seq<char>>,
    d: int,
    wanted: Verdict,
) -> bool {
    exists|slot: u32| #[trigger]
        state.slots().contains(slot) && counts_for(tree, state, recursive, slot, d) && said_of(
            query,
            state.rows()[slot as int],
            content,
        ) == wanted
}

proof fn lemma_found<S: Fn(&IndexedFile) -> Result<Option<String>, String>>(
    tree: Hierarchy,
    state: Snapshot,
    recursive: bool,
    query: QueryView,
    content: S,
    c: spec_fn(IndexedFile) -> Option<Seq<char>>,
    list: Seq<u32>,
    verdicts: Seq<Verdict>,
    from: int,
    d: int,
    wanted: Verdict,
)
    requires
        wanted is True || wanted is Unknown,
        list.to_set() == state.slots(),
        verdicts.len() == list.len(),
        heard(state.rows(), tree.dirs(state), list, verdicts, recursive, query, content),
        search::stored_as(content, c),
        forall|j: int|
            0 <= j < list.len() ==> state.slots().contains(#[trigger] list[j]) && counts_for(
                tree,
                state,
                recursive,
                list[j],
                d,
            ) == (placed(state.rows(), tree.dirs(state), recursive, list[j]) && topology::leads_to(
                tree.dirs(state),
                from,
                state.rows()[list[j] as int].path@,
                d,
            )),
    ensures
        any_brings(state.rows(), tree.dirs(state), list, verdicts, from, d, wanted) == some_row(
            tree,
            state,
            recursive,
            query,
            c,
            d,
            wanted,
        ),
{
    let rows = state.rows();
    let dirs = tree.dirs(state);
    if any_brings(rows, dirs, list, verdicts, from, d, wanted) {
        let j = choose|j: int|
            0 <= j < verdicts.len() && #[trigger] brings(
                rows,
                dirs,
                list,
                verdicts,
                from,
                j,
                d,
                wanted,
            );
        assert(verdicts[j] == wanted);
        assert(state.slots().contains(list[j]));
    }
    if some_row(tree, state, recursive, query, c, d, wanted) {
        let slot = choose|slot: u32| #[trigger]
            state.slots().contains(slot) && counts_for(tree, state, recursive, slot, d) && said_of(
                query,
                rows[slot as int],
                c,
            ) == wanted;
        assert(list.to_set().contains(slot));
        let j = choose|j: int| 0 <= j < list.len() && list[j] == slot;
        assert(verdicts[j] == wanted);
        assert(brings(rows, dirs, list, verdicts, from, j, d, wanted));
    }
}

proof fn lemma_same_ids(tree: Hierarchy, state: Snapshot, flags: Seq<bool>, ids: Set<u64>)
    requires
        forall|d: int|
            0 <= d < flags.len() && #[trigger] flags[d] ==> ids.contains(
                directory_id(tree, state, d),
            ),
        forall|id: u64| #[trigger]
            ids.contains(id) ==> exists|d: int|
                0 <= d < flags.len() && directory_id(tree, state, d) == id && #[trigger] flags[d],
    ensures
        marked_ids(tree, state, flags) == ids,
{
    let marked = marked_ids(tree, state, flags);
    assert forall|id: u64| #[trigger] marked.contains(id) == ids.contains(id) by {
        if marked.contains(id) {
            let d = choose|d: int|
                0 <= d < flags.len() && directory_id(tree, state, d) == id && #[trigger] flags[d];
            assert(ids.contains(directory_id(tree, state, d)));
        }
    }
    assert(marked =~= ids);
}

/// A settled term.
fn settled_term(yes: RoaringTreemap, unknown: RoaringTreemap) -> (query: Query)
    ensures
        query@ == QueryView::Term(
            TermView::Resolved { yes: bitmaps::ids_in(yes), unknown: bitmaps::ids_in(unknown) },
        ),
{
    let term = Term::Resolved(ResolvedPredicate { yes, unknown });
    assert(term@ == TermView::Resolved {
        yes: bitmaps::ids_in(yes),
        unknown: bitmaps::ids_in(unknown),
    });
    model::term_query(term)
}

/// Settle one relation whose own query is settled.
fn settle_relation<S: Fn(&IndexedFile) -> Result<Option<String>, String>, C: Fn() -> bool>(
    part: &Query,
    recursive: bool,
    state: &Snapshot,
    tree: &Hierarchy,
    coverage: &Coverage,
    content: &S,
    cancelled: &C,
) -> (result: Result<(Query, bool), String>)
    requires
        state.wf(),
        tree.describes(*state),
        !laws::relates(part@),
        forall|f: &IndexedFile| #[trigger] call_requires(*content, (f,)),
        call_requires(*cancelled, ()),
    ensures
        match result {
            Ok((resolved, open)) => {
                &&& resolved@ matches QueryView::Term(term) && term is Resolved
                &&& forall|c: spec_fn(IndexedFile) -> Option<Seq<char>>| #[trigger]
                    search::stored_as(*content, c) ==> {
                        let unknown = unknown_ids(*tree, *state, *coverage, recursive, part@, c);
                        &&& resolved@ == QueryView::Term(
                            TermView::Resolved {
                                yes: related_ids(*tree, *state, recursive, part@, c),
                                unknown,
                            },
                        )
                        &&& open == (unknown != Set::<u64>::empty())
                    }
            },
            Err(reason) => resolve_fails(
                evaluate::asks(part@, Question::Expressions),
                evaluate::asks(part@, Question::Content),
                |c: spec_fn(IndexedFile) -> Option<Seq<char>>|
                    part_reaches(*tree, *state, recursive, part@, c),
                *content,
                *cancelled,
                reason,
            ),
        },
{
    let mut unknown = match tree.incomplete_by(state, coverage, cancelled) {
        Ok(unknown) => unknown,
        Err(reason) => {
            return Err(reason);
        },
    };
    let list = slot_list(&state.live);
    let (marked, Ghost(verdicts)) = match mark_rows(
        part,
        recursive,
        state,
        tree,
        &list,
        &mut unknown,
        content,
        cancelled,
        Ghost(*coverage),
    ) {
        Ok(found) => found,
        Err(reason) => {
            return Err(reason);
        },
    };
    let mut positive = marked;
    if recursive {
        match spread(
            state,
            tree,
            &mut positive,
            &mut unknown,
            cancelled,
            Ghost(list@),
            Ghost(verdicts),
            Ghost(*coverage),
        ) {
            Ok(_) => {},
            Err(reason) => {
                return Err(reason);
            },
        }
    }
    let left = undecided(&positive, &unknown);
    let yes = collect_ids(tree, state, &positive);
    let open = collect_ids(tree, state, &left);
    proof {
        assert forall|c: spec_fn(IndexedFile) -> Option<Seq<char>>| #[trigger]
            search::stored_as(*content, c) implies bitmaps::ids_in(yes) == related_ids(
            *tree,
            *state,
            recursive,
            part@,
            c,
        ) && bitmaps::ids_in(open) == unknown_ids(
            *tree,
            *state,
            *coverage,
            recursive,
            part@,
            c,
        ) by {
            assert forall|d: int| 0 <= d < positive@.len() implies #[trigger] positive@[d]
                == some_match(*tree, *state, recursive, part@, c, d) by {
                lemma_marks_answer(
                    *tree,
                    *state,
                    *coverage,
                    recursive,
                    part@,
                    *content,
                    c,
                    list@,
                    verdicts,
                    positive@,
                    unknown@,
                    d,
                );
            }
            assert forall|d: int| 0 <= d < left@.len() implies #[trigger] left@[d] == (
            !some_match(*tree, *state, recursive, part@, c, d) && some_unknown(
                *tree,
                *state,
                *coverage,
                recursive,
                part@,
                c,
                d,
            )) by {
                lemma_marks_answer(
                    *tree,
                    *state,
                    *coverage,
                    recursive,
                    part@,
                    *content,
                    c,
                    list@,
                    verdicts,
                    positive@,
                    unknown@,
                    d,
                );
            }
            let related = related_ids(*tree, *state, recursive, part@, c);
            let unclear = unknown_ids(*tree, *state, *coverage, recursive, part@, c);
            assert forall|id: u64| #[trigger] related.contains(id) implies exists|d: int|
                0 <= d < positive@.len() && directory_id(*tree, *state, d) == id
                    && #[trigger] positive@[d] by {
                let d = choose|d: int|
                    0 <= d < tree.directory_slots@.len() && directory_id(*tree, *state, d) == id
                        && #[trigger] some_match(*tree, *state, recursive, part@, c, d);
                assert(positive@[d]);
            }
            assert forall|id: u64| #[trigger] unclear.contains(id) implies exists|d: int|
                0 <= d < left@.len() && directory_id(*tree, *state, d) == id
                    && #[trigger] left@[d] by {
                let d = choose|d: int|
                    0 <= d < tree.directory_slots@.len() && directory_id(*tree, *state, d) == id
                        && !some_match(*tree, *state, recursive, part@, c, d)
                        && #[trigger] some_unknown(
                        *tree,
                        *state,
                        *coverage,
                        recursive,
                        part@,
                        c,
                        d,
                    );
                assert(left@[d]);
            }
            lemma_same_ids(*tree, *state, positive@, related);
            lemma_same_ids(*tree, *state, left@, unclear);
        }
    }
    let some_open = !open.is_empty();
    (Ok((settled_term(yes, open), some_open)))
}

/// A number that the index knows of a directory.
fn metric_value(tree: &Hierarchy, d: usize, field: &str, Ghost(state): Ghost<Snapshot>) -> (value:
    Option<i128>)
    requires
        tree.describes(state),
        d < tree.directory_slots@.len(),
    ensures
        metric_of(*tree, d as int, field@) == (match value {
            Some(number) => Some(number as int),
            None => None,
        }),
{
    proof {
        topology::lemma_total_bounds(
            state.rows(),
            hierarchy::live_slots(state),
            tree.dirs(state),
            0,
            d as int,
        );
    }
    if same_text(field, "foldersize") {
        match tree.sizes[d] {
            Some(size) => Some(size as i128),
            None => None,
        }
    } else if same_text(field, "childcount") {
        Some(tree.own_files[d] as i128 + tree.own_folders[d] as i128)
    } else if same_text(field, "childfilecount") {
        Some(tree.own_files[d] as i128)
    } else if same_text(field, "childfoldercount") {
        Some(tree.own_folders[d] as i128)
    } else if same_text(field, "descendantcount") {
        Some(tree.all_files[d] as i128 + tree.all_folders[d] as i128)
    } else if same_text(field, "descendantfilecount") {
        Some(tree.all_files[d] as i128)
    } else {
        Some(tree.all_folders[d] as i128)
    }
}

/// Settle a term about the numbers of directories.
fn settle_metric<C: Fn() -> bool>(
    term: &Term,
    field: &str,
    state: &Snapshot,
    tree: &Hierarchy,
    coverage: &Coverage,
    cancelled: &C,
) -> (result: Result<(Query, bool), String>)
    requires
        state.wf(),
        tree.describes(*state),
        term is Number || term is Unknown,
        field@ == number_field(term@),
        call_requires(*cancelled, ()),
    ensures
        match result {
            Ok((resolved, open)) => {
                let unknown = metric_unknown_ids(*tree, *state, *coverage, term@);
                &&& resolved@ == QueryView::Term(
                    TermView::Resolved {
                        yes: metric_ids(*tree, *state, *coverage, term@),
                        unknown,
                    },
                )
                &&& open == (unknown != Set::<u64>::empty())
            },
            Err(reason) => reason@ == "Query cancelled"@ && call_ensures(*cancelled, (), true),
        },
{
    let incomplete = match tree.incomplete_by(state, coverage, cancelled) {
        Ok(flags) => flags,
        Err(reason) => {
            return Err(reason);
        },
    };
    let asks_unknown = match term {
        Term::Unknown { .. } => true,
        _ => false,
    };
    let ghost dirs = tree.dirs(*state);
    let mut yes: Vec<bool> = Vec::new();
    let mut open: Vec<bool> = Vec::new();
    while yes.len() < incomplete.len()
        invariant
            yes@.len() <= incomplete@.len(),
            open@.len() == yes@.len(),
            incomplete@.len() == tree.directory_slots@.len(),
            dirs == tree.dirs(*state),
            forall|d: int|
                0 <= d < incomplete@.len() ==> #[trigger] incomplete@[d] == hierarchy::uncertain(
                    *coverage,
                    dirs[d],
                ),
            tree.describes(*state),
            field@ == number_field(term@),
            asks_unknown == (term@ is Unknown),
            call_requires(*cancelled, ()),
            forall|d: int|
                0 <= d < yes@.len() ==> #[trigger] yes@[d] == metric_holds(
                    *tree,
                    *state,
                    *coverage,
                    term@,
                    d,
                ),
            forall|d: int|
                0 <= d < open@.len() ==> #[trigger] open@[d] == metric_unknown(
                    *tree,
                    *state,
                    *coverage,
                    term@,
                    d,
                ),
        decreases incomplete@.len() - yes@.len(),
    {
        if cancelled() {
            return Err("Query cancelled".to_owned());
        }
        let next = yes.len();
        let value = if incomplete[next] {
            None
        } else {
            metric_value(tree, next, field, Ghost(*state))
        };
        let decided = asks_unknown || value.is_some();
        let holds = decided && term.matches_numeric_value(value);
        yes.push(holds);
        open.push(!decided);
    }
    let ids = collect_ids(tree, state, &yes);
    let open_ids = collect_ids(tree, state, &open);
    proof {
        let known = metric_ids(*tree, *state, *coverage, term@);
        let unclear = metric_unknown_ids(*tree, *state, *coverage, term@);
        assert forall|id: u64| #[trigger] known.contains(id) implies exists|d: int|
            0 <= d < yes@.len() && directory_id(*tree, *state, d) == id && #[trigger] yes@[d] by {
            let d = choose|d: int|
                0 <= d < tree.directory_slots@.len() && directory_id(*tree, *state, d) == id
                    && #[trigger] metric_holds(*tree, *state, *coverage, term@, d);
            assert(yes@[d]);
        }
        assert forall|id: u64| #[trigger] unclear.contains(id) implies exists|d: int|
            0 <= d < open@.len() && directory_id(*tree, *state, d) == id && #[trigger] open@[d] by {
            let d = choose|d: int|
                0 <= d < tree.directory_slots@.len() && directory_id(*tree, *state, d) == id
                    && #[trigger] metric_unknown(*tree, *state, *coverage, term@, d);
            assert(open@[d]);
        }
        lemma_same_ids(*tree, *state, yes@, known);
        lemma_same_ids(*tree, *state, open@, unclear);
    }
    let some_open = !open_ids.is_empty();
    Ok((settled_term(ids, open_ids), some_open))
}

/// What settling a query gives.
pub open spec fn settles<S: Fn(&IndexedFile) -> Result<Option<String>, String>, C: Fn() -> bool>(
    result: Result<(Query, bool), String>,
    query: QueryView,
    state: Snapshot,
    tree: Hierarchy,
    coverage: Coverage,
    content: S,
    cancelled: C,
) -> bool {
    match result {
        Ok((resolved, open)) => {
            &&& !laws::relates(resolved@)
            &&& evaluate::asks(resolved@, Question::Expressions) == evaluate::asks(
                query,
                Question::Expressions,
            )
            &&& evaluate::asks(resolved@, Question::Content) ==> evaluate::asks(
                query,
                Question::Content,
            )
            &&& forall|c: spec_fn(IndexedFile) -> Option<Seq<char>>| #[trigger]
                search::stored_as(content, c) ==> resolved@ == settled(
                    tree,
                    state,
                    coverage,
                    c,
                    query,
                ) && open == leaves_open(tree, state, coverage, c, query)
        },
        Err(reason) => resolve_fails(
            relation_asks(query, Question::Expressions),
            relation_asks(query, Question::Content),
            |c: spec_fn(IndexedFile) -> Option<Seq<char>>|
                relation_reaches(tree, state, coverage, c, query),
            content,
            cancelled,
            reason,
        ),
    }
}

/// Settle the relations of a query, and its terms about the numbers of directories, for a
/// snapshot: each becomes the sets of directories for which it holds or is unknown. Says too
/// whether anything stays unknown. `content` gives the contents that the index keeps of a row.
pub fn resolve<S: Fn(&IndexedFile) -> Result<Option<String>, String>, C: Fn() -> bool>(
    query: Query,
    state: &Snapshot,
    tree: &Hierarchy,
    coverage: &Coverage,
    content: S,
    cancelled: C,
) -> (result: Result<(Query, bool), String>)
    requires
        state.wf(),
        tree.describes(*state),
        forall|f: &IndexedFile| #[trigger] call_requires(content, (f,)),
        call_requires(cancelled, ()),
    ensures
        settles(result, query@, *state, *tree, *coverage, content, cancelled),
        cancellation::always(cancelled) ==> result is Err,
{
    resolve_by(query, state, tree, coverage, &content, &cancelled)
}

pub(crate) fn resolve_by<
    S: Fn(&IndexedFile) -> Result<Option<String>, String>,
    C: Fn() -> bool,
>(
    query: Query,
    state: &Snapshot,
    tree: &Hierarchy,
    coverage: &Coverage,
    content: &S,
    cancelled: &C,
) -> (result: Result<(Query, bool), String>)
    requires
        state.wf(),
        tree.describes(*state),
        forall|f: &IndexedFile| #[trigger] call_requires(*content, (f,)),
        call_requires(*cancelled, ()),
    ensures
        settles(result, query@, *state, *tree, *coverage, *content, *cancelled),
        cancellation::always(*cancelled) ==> result is Err,
    decreases query,
{
    if cancelled() {
        return Err("Query cancelled".to_owned());
    }
    match query {
        Query::All => Ok((Query::All, false)),
        Query::And(children) => match resolve_all(
            children,
            state,
            tree,
            coverage,
            content,
            cancelled,
        ) {
            Ok((children, open)) => Ok((Query::And(children), open)),
            Err(reason) => Err(reason),
        },
        Query::Or(children) => match resolve_all(
            children,
            state,
            tree,
            coverage,
            content,
            cancelled,
        ) {
            Ok((children, open)) => Ok((Query::Or(children), open)),
            Err(reason) => Err(reason),
        },
        Query::Not(child) => match resolve_by(*child, state, tree, coverage, content, cancelled) {
            Ok((inner, open)) => Ok((Query::Not(Box::new(inner)), open)),
            Err(reason) => Err(reason),
        },
        Query::Term(term) => {
            assert(query@ == QueryView::Term(term@));
            resolve_term(term, state, tree, coverage, content, cancelled)
        },
    }
}

fn resolve_term<S: Fn(&IndexedFile) -> Result<Option<String>, String>, C: Fn() -> bool>(
    term: Term,
    state: &Snapshot,
    tree: &Hierarchy,
    coverage: &Coverage,
    content: &S,
    cancelled: &C,
) -> (result: Result<(Query, bool), String>)
    requires
        state.wf(),
        tree.describes(*state),
        forall|f: &IndexedFile| #[trigger] call_requires(*content, (f,)),
        call_requires(*cancelled, ()),
    ensures
        settles(
            result,
            QueryView::Term(term@),
            *state,
            *tree,
            *coverage,
            *content,
            *cancelled,
        ),
    decreases term,
{
    proof {
        reveal_with_fuel(evaluate::asks, 2);
        reveal_with_fuel(evaluate::term_asks, 2);
    }
    match term {
        Term::Related { recursive, query: inner } => {
            let ghost before = inner@;
            assert(term@ == TermView::Related { recursive, query: Box::new(before) });
            let (part, open) = match resolve_by(
                *inner,
                state,
                tree,
                coverage,
                content,
                cancelled,
            ) {
                Ok(found) => found,
                Err(reason) => {
                    return Err(reason);
                },
            };
            match settle_relation(&part, recursive, state, tree, coverage, content, cancelled) {
                Ok((resolved, more)) => Ok((resolved, open || more)),
                Err(reason) => Err(reason),
            }
        },
        Term::Number { field, bounds, negate } => {
            let name = field.clone();
            let term = Term::Number { field, bounds, negate };
            if !metric_name(name.as_str()) {
                return Ok((model::term_query(term), false));
            }
            settle_metric(&term, name.as_str(), state, tree, coverage, cancelled)
        },
        Term::Unknown { field, negate } => {
            let name = field.clone();
            let term = Term::Unknown { field, negate };
            if !metric_name(name.as_str()) {
                return Ok((model::term_query(term), false));
            }
            settle_metric(&term, name.as_str(), state, tree, coverage, cancelled)
        },
        other => Ok((model::term_query(other), false)),
    }
}

/// What settling the first queries of a list has given.
pub open spec fn settled_so_far<S: Fn(&IndexedFile) -> Result<Option<String>, String>>(
    done: Seq<QueryView>,
    open: bool,
    queries: Seq<QueryView>,
    state: Snapshot,
    tree: Hierarchy,
    coverage: Coverage,
    content: S,
) -> bool {
    &&& !laws::any_relates(done)
    &&& evaluate::any_asks(done, Question::Expressions) == evaluate::any_asks(
        queries,
        Question::Expressions,
    )
    &&& evaluate::any_asks(done, Question::Content) ==> evaluate::any_asks(
        queries,
        Question::Content,
    )
    &&& forall|c: spec_fn(IndexedFile) -> Option<Seq<char>>| #[trigger]
        search::stored_as(content, c) ==> done == settled_all(tree, state, coverage, c, queries)
            && open == any_left_open(tree, state, coverage, c, queries)
}

/// Something holds of a list if it holds of its beginning.
proof fn lemma_beginning_asks(queries: Seq<QueryView>, count: int, question: Question)
    requires
        0 <= count <= queries.len(),
        any_relation_asks(queries.take(count), question),
    ensures
        any_relation_asks(queries, question),
    decreases queries.len() - count,
{
    if count == queries.len() {
        assert(queries.take(count) =~= queries);
    } else {
        assert(queries.take(count + 1).drop_last() =~= queries.take(count));
        lemma_beginning_asks(queries, count + 1, question);
    }
}

proof fn lemma_beginning_reaches(
    tree: Hierarchy,
    state: Snapshot,
    coverage: Coverage,
    content: spec_fn(IndexedFile) -> Option<Seq<char>>,
    queries: Seq<QueryView>,
    count: int,
)
    requires
        0 <= count <= queries.len(),
        any_relation_reaches(tree, state, coverage, content, queries.take(count)),
    ensures
        any_relation_reaches(tree, state, coverage, content, queries),
    decreases queries.len() - count,
{
    if count == queries.len() {
        assert(queries.take(count) =~= queries);
    } else {
        assert(queries.take(count + 1).drop_last() =~= queries.take(count));
        lemma_beginning_reaches(tree, state, coverage, content, queries, count + 1);
    }
}

pub(crate) fn resolve_all<S: Fn(&IndexedFile) -> Result<Option<String>, String>, C: Fn() -> bool>(
    queries: Vec<Query>,
    state: &Snapshot,
    tree: &Hierarchy,
    coverage: &Coverage,
    content: &S,
    cancelled: &C,
) -> (result: Result<(Vec<Query>, bool), String>)
    requires
        state.wf(),
        tree.describes(*state),
        forall|f: &IndexedFile| #[trigger] call_requires(*content, (f,)),
        call_requires(*cancelled, ()),
    ensures
        match result {
            Ok((done, open)) => settled_so_far(
                model::query_views(done@),
                open,
                model::query_views(queries@),
                *state,
                *tree,
                *coverage,
                *content,
            ),
            Err(reason) => resolve_fails(
                any_relation_asks(model::query_views(queries@), Question::Expressions),
                any_relation_asks(model::query_views(queries@), Question::Content),
                |c: spec_fn(IndexedFile) -> Option<Seq<char>>|
                    any_relation_reaches(
                        *tree,
                        *state,
                        *coverage,
                        c,
                        model::query_views(queries@),
                    ),
                *content,
                *cancelled,
                reason,
            ),
        },
    decreases queries,
{
    let ghost all = queries@;
    let ghost views = model::query_views(all);
    let mut rest = queries;
    let mut turned: Vec<Query> = Vec::new();
    while rest.len() > 0
        invariant
            rest@.len() + turned@.len() == all.len(),
            rest@ == all.take(rest@.len() as int),
            forall|i: int|
                0 <= i < turned@.len() ==> #[trigger] turned@[i] == all[all.len() - 1 - i],
        decreases rest@.len(),
    {
        let ghost count = rest@.len() as int;
        if let Some(query) = rest.pop() {
            assert(query == all[count - 1]);
            turned.push(query);
            assert(rest@ =~= all.take(count - 1));
        }
    }
    let ghost backwards = turned@;
    let mut done: Vec<Query> = Vec::new();
    let mut open = false;
    proof {
        model::lemma_query_views(all);
        assert(views.take(0) =~= Seq::<QueryView>::empty());
        assert(model::query_views(done@) =~= Seq::<QueryView>::empty());
    }
    while turned.len() > 0
        invariant
            all == queries@,
            views == model::query_views(all),
            views.len() == all.len(),
            forall|i: int| 0 <= i < all.len() ==> views[i] == model::query_view(all[i]),
            backwards.len() == all.len(),
            forall|i: int|
                0 <= i < backwards.len() ==> #[trigger] backwards[i] == all[all.len() - 1 - i],
            turned@.len() + done@.len() == all.len(),
            turned@ == backwards.take(turned@.len() as int),
            state.wf(),
            tree.describes(*state),
            forall|f: &IndexedFile| #[trigger] call_requires(*content, (f,)),
            call_requires(*cancelled, ()),
            settled_so_far(
                model::query_views(done@),
                open,
                views.take(done@.len() as int),
                *state,
                *tree,
                *coverage,
                *content,
            ),
        decreases turned@.len(),
    {
        let ghost count = turned@.len() as int;
        let ghost next = done@.len() as int;
        let ghost before = done@;
        if let Some(query) = turned.pop() {
            assert(query == backwards[count - 1]);
            assert(query == all[next]);
            assert(decreases_to!(queries => queries@[next]));
            let ghost part = views.take(next + 1);
            assert(part.drop_last() =~= views.take(next));
            assert(part.last() == query@);
            match resolve_by(query, state, tree, coverage, content, cancelled) {
                Ok((resolved, more)) => {
                    proof {
                        model::lemma_query_views_push(before, resolved);
                        let now = model::query_views(before).push(resolved@);
                        assert(now.drop_last() =~= model::query_views(before));
                        assert(now.last() == resolved@);
                    }
                    done.push(resolved);
                    open = open || more;
                },
                Err(reason) => {
                    proof {
                        if relation_asks(query@, Question::Expressions) {
                            lemma_beginning_asks(views, next + 1, Question::Expressions);
                        }
                        if relation_asks(query@, Question::Content) {
                            lemma_beginning_asks(views, next + 1, Question::Content);
                        }
                        assert forall|c: spec_fn(IndexedFile) -> Option<Seq<char>>|
                            relation_reaches(
                                *tree,
                                *state,
                                *coverage,
                                c,
                                query@,
                            ) implies #[trigger] any_relation_reaches(
                            *tree,
                            *state,
                            *coverage,
                            c,
                            views,
                        ) by {
                            lemma_beginning_reaches(
                                *tree,
                                *state,
                                *coverage,
                                c,
                                views,
                                next + 1,
                            );
                        }
                    }
                    return Err(reason);
                },
            }
            assert(turned@ =~= backwards.take(count - 1));
        }
    }
    assert(views.take(done@.len() as int) =~= views);
    Ok((done, open))
}

/// Settled relations ask for no contents of their own, and evaluate no expression.
pub proof fn lemma_settled_asks(
    tree: Hierarchy,
    state: Snapshot,
    coverage: Coverage,
    content: spec_fn(IndexedFile) -> Option<Seq<char>>,
    query: QueryView,
)
    ensures
        ({
            let part = settled(tree, state, coverage, content, query);
            &&& evaluate::asks(part, Question::Content) ==> evaluate::asks(query, Question::Content)
            &&& evaluate::asks(part, Question::Expressions) == evaluate::asks(
                query,
                Question::Expressions,
            )
        }),
    decreases query,
{
    reveal_with_fuel(evaluate::asks, 2);
    reveal_with_fuel(evaluate::term_asks, 2);
    match query {
        QueryView::All => {},
        QueryView::And(children) => {
            lemma_settled_all_asks(tree, state, coverage, content, children);
        },
        QueryView::Or(children) => {
            lemma_settled_all_asks(tree, state, coverage, content, children);
        },
        QueryView::Not(child) => {
            lemma_settled_asks(tree, state, coverage, content, *child);
        },
        QueryView::Term(_) => {},
    }
}

pub proof fn lemma_settled_all_asks(
    tree: Hierarchy,
    state: Snapshot,
    coverage: Coverage,
    content: spec_fn(IndexedFile) -> Option<Seq<char>>,
    queries: Seq<QueryView>,
)
    ensures
        ({
            let parts = settled_all(tree, state, coverage, content, queries);
            &&& evaluate::any_asks(parts, Question::Content) ==> evaluate::any_asks(
                queries,
                Question::Content,
            )
            &&& evaluate::any_asks(parts, Question::Expressions) == evaluate::any_asks(
                queries,
                Question::Expressions,
            )
        }),
    decreases queries,
{
    if queries.len() > 0 {
        lemma_settled_all_asks(tree, state, coverage, content, queries.drop_last());
        lemma_settled_asks(tree, state, coverage, content, queries.last());
        let head = settled_all(tree, state, coverage, content, queries.drop_last());
        let parts = settled_all(tree, state, coverage, content, queries);
        assert(parts.drop_last() =~= head);
        assert(parts.last() == settled(tree, state, coverage, content, queries.last()));
    }
}

/// Settling comes to an expression only where a relation is about rows of which one is asked.
pub proof fn lemma_relation_reaches_asks(
    tree: Hierarchy,
    state: Snapshot,
    coverage: Coverage,
    content: spec_fn(IndexedFile) -> Option<Seq<char>>,
    query: QueryView,
)
    ensures
        relation_reaches(tree, state, coverage, content, query) ==> relation_asks(
            query,
            Question::Expressions,
        ),
    decreases query,
{
    match query {
        QueryView::All => {},
        QueryView::And(children) => {
            lemma_any_relation_reaches_asks(tree, state, coverage, content, children);
        },
        QueryView::Or(children) => {
            lemma_any_relation_reaches_asks(tree, state, coverage, content, children);
        },
        QueryView::Not(child) => {
            lemma_relation_reaches_asks(tree, state, coverage, content, *child);
        },
        QueryView::Term(term) => {
            if let TermView::Related { recursive, query: inner } = term {
                lemma_relation_reaches_asks(tree, state, coverage, content, *inner);
                lemma_settled_asks(tree, state, coverage, content, *inner);
                let part = settled(tree, state, coverage, content, *inner);
                if part_reaches(tree, state, recursive, part, content) {
                    let slot = choose|slot: u32| #[trigger]
                        state.slots().contains(slot) && placed(
                            state.rows(),
                            tree.dirs(state),
                            recursive,
                            slot,
                        ) && evaluate::reaches(
                            Mode::Indexed,
                            part,
                            state.rows()[slot as int],
                            body_for(part, state.rows()[slot as int], content),
                        );
                    let file = state.rows()[slot as int];
                    evaluate::lemma_reaches_asks(
                        Mode::Indexed,
                        part,
                        file,
                        body_for(part, file, content),
                    );
                }
            }
        },
    }
}

pub proof fn lemma_any_relation_reaches_asks(
    tree: Hierarchy,
    state: Snapshot,
    coverage: Coverage,
    content: spec_fn(IndexedFile) -> Option<Seq<char>>,
    queries: Seq<QueryView>,
)
    ensures
        any_relation_reaches(tree, state, coverage, content, queries) ==> any_relation_asks(
            queries,
            Question::Expressions,
        ),
    decreases queries,
{
    if queries.len() > 0 {
        lemma_any_relation_reaches_asks(tree, state, coverage, content, queries.drop_last());
        lemma_relation_reaches_asks(tree, state, coverage, content, queries.last());
    }
}

/// A directory that directly holds a match also holds it at some depth.
pub proof fn law_a_child_is_a_descendant(
    tree: Hierarchy,
    state: Snapshot,
    query: QueryView,
    content: spec_fn(IndexedFile) -> Option<Seq<char>>,
)
    requires
        state.wf(),
        tree.describes(state),
    ensures
        related_ids(tree, state, false, query, content).subset_of(
            related_ids(tree, state, true, query, content),
        ),
{
    let (near, far) = (
        related_ids(tree, state, false, query, content),
        related_ids(tree, state, true, query, content),
    );
    assert forall|id: u64| #[trigger] near.contains(id) implies far.contains(id) by {
        let d = choose|d: int|
            0 <= d < tree.directory_slots@.len() && directory_id(tree, state, d) == id
                && #[trigger] some_match(tree, state, false, query, content, d);
        let slot = choose|slot: u32| #[trigger]
            state.slots().contains(slot) && counts_for(tree, state, false, slot, d) && said_of(
                query,
                state.rows()[slot as int],
                content,
            ) is True;
        topology::lemma_nearest(tree.dirs(state), state.rows()[slot as int].path@);
        assert(state.slots().contains(slot));
        assert(some_match(tree, state, true, query, content, d));
    }
}

/// Of a directory whose subtree is wholly indexed, and whose rows a query decides, it is known
/// whether it holds a match.
pub proof fn law_complete_directories_are_decided(
    tree: Hierarchy,
    state: Snapshot,
    coverage: Coverage,
    recursive: bool,
    query: QueryView,
    content: spec_fn(IndexedFile) -> Option<Seq<char>>,
    d: int,
)
    requires
        0 <= d < tree.directory_slots@.len(),
        !hierarchy::uncertain(coverage, tree.dirs(state)[d]),
        forall|c: int|
            0 <= c < tree.dirs(state).len() && topology::lies_above(
                tree.dirs(state)[d],
                #[trigger] tree.dirs(state)[c],
            ) ==> !hierarchy::uncertain(coverage, tree.dirs(state)[c]),
        forall|slot: u32| #[trigger]
            state.slots().contains(slot) ==> !(said_of(
                query,
                state.rows()[slot as int],
                content,
            ) is Unknown),
    ensures
        !some_unknown(tree, state, coverage, recursive, query, content, d),
{
}

} // verus!
