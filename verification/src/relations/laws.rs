//! What relations and folder numbers mean, said of the rows themselves: of their paths, whether
//! they are folders, and what a query says of each of them.
use crate::files::IndexedFile;
use crate::paths;
use crate::query::atoms;
use crate::query::evaluate;
use crate::query::evaluate::{Mode, Question};
use crate::query::lexer::TokenView;
use crate::query::model;
use crate::query::model::{NumberBounds, QueryView, TermView};
use crate::query::options;
use crate::query::options::{OptionsView, TargetView};
use crate::query::parser;
use crate::query::parser::{Source, State};
use crate::relations::hierarchy;
use crate::relations::hierarchy::{Coverage, DirectoryInfo, Hierarchy};
use crate::relations::resolve;
use crate::relations::topology;
use crate::relations::topology::Tally;
use crate::snapshot::Snapshot;
use crate::text;
use crate::text_order;
use vstd::prelude::*;

verus! {

/// The path that lies a number of steps above another, each step to the parent.
pub open spec fn steps_up(path: Seq<char>, steps: nat) -> Option<Seq<char>>
    decreases steps,
{
    if steps == 0 {
        Some(path)
    } else {
        match paths::parent_path(path) {
            Some(up) => steps_up(up, (steps - 1) as nat),
            None => None,
        }
    }
}

/// A path lies directly in a folder.
pub open spec fn child_of(path: Seq<char>, folder: Seq<char>) -> bool {
    paths::parent_path(path) == Some(folder)
}

/// A path lies in a folder at some depth.
pub open spec fn descendant_of(path: Seq<char>, folder: Seq<char>) -> bool {
    exists|steps: nat| steps > 0 && #[trigger] steps_up(path, steps) == Some(folder)
}

/// A row with a path lies where a relation word looks, and is of the kind that the word names.
pub open spec fn stands_for(word: Seq<char>, row: IndexedFile, folder: Seq<char>) -> bool {
    ||| word == "child"@ && child_of(row.path@, folder)
    ||| word == "childfile"@ && child_of(row.path@, folder) && !row.is_dir
    ||| word == "childfolder"@ && child_of(row.path@, folder) && row.is_dir
    ||| word == "descendant"@ && descendant_of(row.path@, folder)
    ||| word == "descendantfile"@ && descendant_of(row.path@, folder) && !row.is_dir
    ||| word == "descendantfolder"@ && descendant_of(row.path@, folder) && row.is_dir
}

/// The words of relations.
pub open spec fn relation_word(word: Seq<char>) -> bool {
    word == "child"@ || word == "childfile"@ || word == "childfolder"@ || word == "descendant"@
        || word == "descendantfile"@ || word == "descendantfolder"@
}

/// Rows know their parents, and no two live ones have the same id.
pub open spec fn rows_are_sound(state: Snapshot) -> bool {
    &&& forall|slot: u32| #[trigger]
        state.slots().contains(slot) ==> {
            let row = state.rows()[slot as int];
            match paths::parent_path(row.path@) {
                Some(up) => row.parent@ == up,
                None => true,
            }
        }
    &&& forall|a: u32, b: u32| #[trigger]
        state.slots().contains(a) && #[trigger] state.slots().contains(b)
            && state.rows()[a as int].id as u64 == state.rows()[b as int].id as u64 ==> a == b
}

/// A live row that stands for a relation word matches a query.
pub open spec fn holds_match(
    tree: Hierarchy,
    state: Snapshot,
    coverage: Coverage,
    content: spec_fn(IndexedFile) -> Option<Seq<char>>,
    word: Seq<char>,
    query: QueryView,
    folder: Seq<char>,
) -> bool {
    exists|slot: u32| #[trigger]
        state.slots().contains(slot) && stands_for(word, state.rows()[slot as int], folder)
            && resolve::said_of(
            resolve::settled(tree, state, coverage, content, query),
            state.rows()[slot as int],
            content,
        ) is True
}

proof fn lemma_above(dir: Seq<char>, path: Seq<char>)
    ensures
        topology::lies_above(dir, path) == descendant_of(path, dir),
    decreases path.len(),
{
    paths::lemma_parent_shorter(path);
    match paths::parent_path(path) {
        Some(up) => {
            lemma_above(dir, up);
            if up == dir {
                assert(steps_up(up, 0) == Some(dir));
                assert(steps_up(path, 1) == Some(dir));
            }
            if descendant_of(up, dir) {
                let steps = choose|steps: nat|
                    steps > 0 && #[trigger] steps_up(up, steps) == Some(dir);
                assert(steps_up(path, steps + 1) == Some(dir));
            }
            if descendant_of(path, dir) {
                let steps = choose|steps: nat|
                    steps > 0 && #[trigger] steps_up(path, steps) == Some(dir);
                assert(steps_up(up, (steps - 1) as nat) == Some(dir));
                if steps == 1 {
                    assert(up == dir);
                }
            }
        },
        None => {
            if descendant_of(path, dir) {
                let steps = choose|steps: nat|
                    steps > 0 && #[trigger] steps_up(path, steps) == Some(dir);
                assert(steps_up(path, steps) is None);
            }
        },
    }
}

proof fn lemma_near(dirs: Seq<Seq<char>>, path: Seq<char>, d: int)
    requires
        text_order::ascending(dirs),
        0 <= d < dirs.len(),
        paths::parent_path(path) == Some(dirs[d]),
    ensures
        topology::nearest(dirs, path) == Some(d),
{
    paths::lemma_parent_shorter(path);
    assert(dirs.contains(dirs[d]));
    let i = dirs.index_of(dirs[d]);
    assert(dirs[i] == dirs[d]);
    topology::lemma_same_directory(dirs, i, d);
}

/// What a restriction to files or to folders adds to a query.
proof fn lemma_restricted(
    tree: Hierarchy,
    state: Snapshot,
    coverage: Coverage,
    content: spec_fn(IndexedFile) -> Option<Seq<char>>,
    query: QueryView,
    kind: Option<bool>,
    row: IndexedFile,
)
    ensures
        resolve::said_of(
            resolve::settled(tree, state, coverage, content, model::restricted(query, kind)),
            row,
            content,
        ) is True <==> (kind is Some ==> row.is_dir == kind->0) && resolve::said_of(
            resolve::settled(tree, state, coverage, content, query),
            row,
            content,
        ) is True,
{
    if let Some(dir) = kind {
        let first = QueryView::Term(TermView::IsDir(dir));
        let parts = seq![first, query];
        let part = resolve::settled(tree, state, coverage, content, query);
        let settled = seq![first, part];
        reveal_with_fuel(resolve::settled_all, 3);
        reveal_with_fuel(resolve::settled, 3);
        reveal_with_fuel(evaluate::asks, 3);
        reveal_with_fuel(evaluate::any_asks, 4);
        reveal_with_fuel(evaluate::term_asks, 3);
        reveal_with_fuel(evaluate::combined, 4);
        reveal_with_fuel(evaluate::verdict, 3);
        assert(parts.drop_last() =~= seq![first]);
        assert(parts.drop_last().drop_last() =~= Seq::<QueryView>::empty());
        assert(settled.drop_last() =~= seq![first]);
        assert(settled.drop_last().drop_last() =~= Seq::<QueryView>::empty());
        assert(resolve::settled(tree, state, coverage, content, first) == first);
        assert(resolve::settled_all(tree, state, coverage, content, parts.drop_last())
            =~= seq![first]);
        assert(resolve::settled_all(tree, state, coverage, content, parts) =~= settled);
        let whole = QueryView::And(settled);
        assert(evaluate::any_asks(settled.drop_last(), Question::Content) == false);
        assert(evaluate::asks(whole, Question::Content) == evaluate::asks(part, Question::Content));
        let body = resolve::body_for(part, row, content);
        assert(resolve::body_for(whole, row, content) == body);
        assert(evaluate::verdict(Mode::Indexed, first, row, body) == evaluate::decided(
            row.is_dir == dir,
        ));
        assert(evaluate::combined(Mode::Indexed, settled.drop_last(), true, row, body)
            == evaluate::decided(row.is_dir == dir));
    }
}

/// What a word of a relation says of depth and kind.
proof fn lemma_relation(word: Seq<char>)
    requires
        relation_word(word),
    ensures
        options::relation_of(word) is Some,
        ({
            let (recursive, kind) = options::relation_of(word)->0;
            forall|row: IndexedFile, folder: Seq<char>| #[trigger]
                stands_for(word, row, folder) == ((if recursive {
                    descendant_of(row.path@, folder)
                } else {
                    child_of(row.path@, folder)
                }) && (kind is Some ==> row.is_dir == kind->0))
        }),
        forall|i: int| 0 <= i < word.len() ==> 'a' <= #[trigger] word[i] <= 'z',
{
    reveal_strlit("child");
    reveal_strlit("childfile");
    reveal_strlit("childfolder");
    reveal_strlit("descendant");
    reveal_strlit("descendantfile");
    reveal_strlit("descendantfolder");
    assert("child"@.len() == 5);
    assert("childfile"@.len() == 9);
    assert("childfolder"@.len() == 11);
    assert("descendant"@.len() == 10);
    assert("descendantfile"@.len() == 14);
    assert("descendantfolder"@.len() == 16);
}

/// A relation of one of the words.
spec fn relation_query(word: Seq<char>, query: QueryView) -> QueryView {
    let (recursive, kind) = options::relation_of(word)->0;
    QueryView::Term(
        TermView::Related { recursive, query: Box::new(model::restricted(query, kind)) },
    )
}

proof fn lemma_relation_matches(
    tree: Hierarchy,
    state: Snapshot,
    coverage: Coverage,
    content: spec_fn(IndexedFile) -> Option<Seq<char>>,
    word: Seq<char>,
    query: QueryView,
    place: u32,
)
    requires
        tree.describes(state),
        rows_are_sound(state),
        relation_word(word),
        state.slots().contains(place),
    ensures
        ({
            let row = state.rows()[place as int];
            resolve::said_of(
                resolve::settled(tree, state, coverage, content, relation_query(word, query)),
                row,
                content,
            ) is True <==> row.is_dir && !row.is_symlink && holds_match(
                tree,
                state,
                coverage,
                content,
                word,
                query,
                row.path@,
            )
        }),
{
    lemma_relation(word);
    let (recursive, kind) = options::relation_of(word)->0;
    let narrow = model::restricted(query, kind);
    let part = resolve::settled(tree, state, coverage, content, narrow);
    let row = state.rows()[place as int];
    let dirs = tree.dirs(state);
    reveal_with_fuel(resolve::settled, 2);
    let yes = resolve::related_ids(tree, state, recursive, part, content);
    let found = resolve::settled(tree, state, coverage, content, relation_query(word, query));
    assert(resolve::said_of(found, row, content) is True <==> yes.contains(row.id as u64));
    assert forall|d: int, slot: u32|
        0 <= d < dirs.len() && #[trigger] state.slots().contains(
            slot,
        ) implies #[trigger] resolve::counts_for(tree, state, recursive, slot, d) == (if recursive {
        descendant_of(state.rows()[slot as int].path@, dirs[d])
    } else {
        child_of(state.rows()[slot as int].path@, dirs[d])
    }) by {
        let path = state.rows()[slot as int].path@;
        lemma_above(dirs[d], path);
        if !recursive {
            if child_of(path, dirs[d]) {
                lemma_near(dirs, path, d);
            }
            if topology::nearest(dirs, path) == Some(d) {
                assert(paths::parent_path(path) is Some);
            }
        }
    }
    if yes.contains(row.id as u64) {
        let d = choose|d: int|
            0 <= d < tree.directory_slots@.len() && resolve::directory_id(tree, state, d)
                == row.id as u64 && #[trigger] resolve::some_match(
                tree,
                state,
                recursive,
                part,
                content,
                d,
            );
        let dir = tree.directory_slots@[d];
        hierarchy::lemma_directory(tree, state, d);
        assert(state.slots().contains(dir));
        assert(dir == place);
        assert(tree.directory_slots@.to_set().contains(dir));
        assert(hierarchy::folder_slots(state).contains(dir));
        let slot = choose|slot: u32| #[trigger]
            state.slots().contains(slot) && resolve::counts_for(tree, state, recursive, slot, d)
                && resolve::said_of(part, state.rows()[slot as int], content) is True;
        lemma_restricted(
            tree,
            state,
            coverage,
            content,
            query,
            kind,
            state.rows()[slot as int],
        );
        assert(stands_for(word, state.rows()[slot as int], row.path@));
        assert(state.slots().contains(slot));
    }
    if row.is_dir && !row.is_symlink && holds_match(
        tree,
        state,
        coverage,
        content,
        word,
        query,
        row.path@,
    ) {
        assert(hierarchy::folder_slots(state).contains(place));
        assert(tree.directory_slots@.to_set().contains(place));
        let d = choose|d: int|
            0 <= d < tree.directory_slots@.len() && tree.directory_slots@[d] == place;
        hierarchy::lemma_directory(tree, state, d);
        let slot = choose|slot: u32| #[trigger]
            state.slots().contains(slot) && stands_for(
                word,
                state.rows()[slot as int],
                row.path@,
            ) && resolve::said_of(
                resolve::settled(tree, state, coverage, content, query),
                state.rows()[slot as int],
                content,
            ) is True;
        lemma_restricted(
            tree,
            state,
            coverage,
            content,
            query,
            kind,
            state.rows()[slot as int],
        );
        assert(state.slots().contains(slot));
        assert(resolve::counts_for(tree, state, recursive, slot, d));
        assert(resolve::some_match(tree, state, recursive, part, content, d));
        assert(yes.contains(row.id as u64));
    }
}

proof fn lemma_plain_keyword(word: Seq<char>)
    requires
        forall|i: int| 0 <= i < word.len() ==> 'a' <= #[trigger] word[i] <= 'z',
    ensures
        text::keyword_of(word) == word,
    decreases word.len(),
{
    assert(text::lower(word) =~= word);
    lemma_without(word);
}

proof fn lemma_without(word: Seq<char>)
    requires
        forall|i: int| 0 <= i < word.len() ==> 'a' <= #[trigger] word[i] <= 'z',
    ensures
        text::without_char(word, '-') == word,
    decreases word.len(),
{
    if word.len() > 0 {
        let init = word.drop_last();
        assert forall|i: int| 0 <= i < init.len() implies 'a' <= #[trigger] init[i] <= 'z' by {
            assert(init[i] == word[i]);
        }
        lemma_without(init);
        assert('a' <= word[word.len() - 1] <= 'z');
        assert(init.push(word.last()) =~= word);
    }
}

/// A relation in front of a group finds a folder exactly if a live row that stands where the word
/// looks, and is of its kind, matches what is in the group: `child`, `childfile` and
/// `childfolder` look directly in the folder, `descendant`, `descendantfile` and
/// `descendantfolder` at every depth below it. Nothing but folders is ever found.
pub proof fn law_relations_find_the_folders_of_matches(
    tree: Hierarchy,
    state: Snapshot,
    coverage: Coverage,
    content: spec_fn(IndexedFile) -> Option<Seq<char>>,
    source: Source,
    base: OptionsView,
    nesting: int,
    at: State,
    word: Seq<char>,
    query: QueryView,
    place: u32,
)
    requires
        tree.describes(state),
        rows_are_sound(state),
        relation_word(word),
        parser::token_is(source, at.pos, TokenView::L),
        parser::group_expression(source, base, nesting, (State { pos: at.pos + 1, ..at })).0 == Ok::<
            QueryView,
            Seq<char>,
        >(query),
        state.slots().contains(place),
    ensures
        ({
            let row = state.rows()[place as int];
            let parsed = parser::word_expression(source, base, nesting, at, word + seq![':'], None).0;
            &&& parsed is Ok
            &&& resolve::said_of(
                resolve::settled(tree, state, coverage, content, parsed->Ok_0),
                row,
                content,
            ) is True <==> row.is_dir && !row.is_symlink && holds_match(
                tree,
                state,
                coverage,
                content,
                word,
                query,
                row.path@,
            )
        }),
{
    lemma_relation(word);
    lemma_plain_keyword(word);
    lemma_relation_matches(tree, state, coverage, content, word, query, place);
    let prefix = word + seq![':'];
    assert(prefix.drop_last() =~= word);
    text::lemma_first_at(word, ':', word.len() as int);
    let words = text::split_on(word, ':');
    assert(words =~= seq![word]);
    assert(options::keyword_list(words.drop_last()) =~= Seq::<Seq<char>>::empty());
    let (recursive, kind) = options::relation_of(word)->0;
    assert(options::relation_prefix(prefix, base) == Some((recursive, kind, base)));
    assert(parser::word_expression(source, base, nesting, at, prefix, None).0 == Ok::<
        QueryView,
        Seq<char>,
    >(relation_query(word, query)));
}

/// A relation in front of a text finds a folder exactly if such a row matches the text.
pub proof fn law_relations_of_texts_find_the_folders_of_matches(
    tree: Hierarchy,
    state: Snapshot,
    coverage: Coverage,
    content: spec_fn(IndexedFile) -> Option<Seq<char>>,
    base: OptionsView,
    requests: Seq<atoms::RequestView>,
    word: Seq<char>,
    wanted: Seq<char>,
    query: QueryView,
    place: u32,
)
    requires
        tree.describes(state),
        rows_are_sound(state),
        relation_word(word),
        atoms::text_result(wanted, base, TargetView::Field(base.modes.field)) == Ok::<
            QueryView,
            Seq<char>,
        >(query),
        state.slots().contains(place),
    ensures
        ({
            let row = state.rows()[place as int];
            let parsed = atoms::atom_result(word + seq![':'] + wanted, base, None, requests).0;
            &&& parsed is Ok
            &&& resolve::said_of(
                resolve::settled(tree, state, coverage, content, parsed->Ok_0),
                row,
                content,
            ) is True <==> row.is_dir && !row.is_symlink && holds_match(
                tree,
                state,
                coverage,
                content,
                word,
                query,
                row.path@,
            )
        }),
{
    lemma_relation(word);
    lemma_plain_keyword(word);
    lemma_relation_matches(tree, state, coverage, content, word, query, place);
    let original = word + seq![':'] + wanted;
    let n = word.len() as int;
    assert forall|i: int| 0 <= i < n implies #[trigger] original[i] != ':' by {
        assert(original[i] == word[i]);
    }
    assert(original[n] == ':');
    text::lemma_first_at(original, ':', n);
    assert(original.take(n) =~= word);
    assert(original.skip(n + 1) =~= wanted);
}

/// A folder that holds a matching file or folder directly also holds it at some depth, and so
/// does every folder above it.
pub proof fn law_matches_count_for_every_folder_above(
    tree: Hierarchy,
    state: Snapshot,
    coverage: Coverage,
    content: spec_fn(IndexedFile) -> Option<Seq<char>>,
    query: QueryView,
    folder: Seq<char>,
    higher: Seq<char>,
)
    requires
        higher == folder || descendant_of(folder, higher),
    ensures
        holds_match(tree, state, coverage, content, "childfile"@, query, folder) ==> holds_match(
            tree,
            state,
            coverage,
            content,
            "descendantfile"@,
            query,
            higher,
        ),
        holds_match(tree, state, coverage, content, "childfolder"@, query, folder) ==> holds_match(
            tree,
            state,
            coverage,
            content,
            "descendantfolder"@,
            query,
            higher,
        ),
        holds_match(tree, state, coverage, content, "descendantfile"@, query, folder)
            ==> holds_match(tree, state, coverage, content, "descendantfile"@, query, higher),
        holds_match(tree, state, coverage, content, "descendant"@, query, higher) <==> (holds_match(
            tree,
            state,
            coverage,
            content,
            "descendantfile"@,
            query,
            higher,
        ) || holds_match(tree, state, coverage, content, "descendantfolder"@, query, higher)),
        holds_match(tree, state, coverage, content, "child"@, query, higher) <==> (holds_match(
            tree,
            state,
            coverage,
            content,
            "childfile"@,
            query,
            higher,
        ) || holds_match(tree, state, coverage, content, "childfolder"@, query, higher)),
{
    reveal_strlit("child");
    reveal_strlit("childfile");
    reveal_strlit("childfolder");
    reveal_strlit("descendant");
    reveal_strlit("descendantfile");
    reveal_strlit("descendantfolder");
    assert("child"@.len() == 5);
    assert("childfile"@.len() == 9);
    assert("childfolder"@.len() == 11);
    assert("descendant"@.len() == 10);
    assert("descendantfile"@.len() == 14);
    assert("descendantfolder"@.len() == 16);
    assert forall|path: Seq<char>| #[trigger] child_of(path, folder) implies descendant_of(
        path,
        higher,
    ) by {
        assert(steps_up(folder, 0) == Some(folder));
        assert(steps_up(path, 1) == Some(folder));
        if higher != folder {
            lemma_higher(path, folder, higher);
        }
    }
    assert forall|path: Seq<char>| #[trigger] descendant_of(path, folder) implies descendant_of(
        path,
        higher,
    ) by {
        if higher != folder {
            lemma_higher(path, folder, higher);
        }
    }
    let body = resolve::settled(tree, state, coverage, content, query);
    assert forall|near: Seq<char>, far: Seq<char>, low: Seq<char>, high: Seq<char>|
        #![trigger holds_match(tree, state, coverage, content, near, query, low), holds_match(tree, state, coverage, content, far, query, high)]
        (forall|row: IndexedFile| #[trigger]
            stands_for(near, row, low) ==> stands_for(far, row, high)) && holds_match(
            tree,
            state,
            coverage,
            content,
            near,
            query,
            low,
        ) implies holds_match(tree, state, coverage, content, far, query, high) by {
        let slot = choose|slot: u32| #[trigger]
            state.slots().contains(slot) && stands_for(near, state.rows()[slot as int], low)
                && resolve::said_of(body, state.rows()[slot as int], content) is True;
        assert(state.slots().contains(slot) && stands_for(far, state.rows()[slot as int], high));
    }
    if holds_match(tree, state, coverage, content, "descendant"@, query, higher) {
        let slot = choose|slot: u32| #[trigger]
            state.slots().contains(slot) && stands_for(
                "descendant"@,
                state.rows()[slot as int],
                higher,
            ) && resolve::said_of(body, state.rows()[slot as int], content) is True;
        assert(state.slots().contains(slot));
        if state.rows()[slot as int].is_dir {
            assert(stands_for("descendantfolder"@, state.rows()[slot as int], higher));
        } else {
            assert(stands_for("descendantfile"@, state.rows()[slot as int], higher));
        }
    }
    if holds_match(tree, state, coverage, content, "child"@, query, higher) {
        let slot = choose|slot: u32| #[trigger]
            state.slots().contains(slot) && stands_for("child"@, state.rows()[slot as int], higher)
                && resolve::said_of(body, state.rows()[slot as int], content) is True;
        assert(state.slots().contains(slot));
        if state.rows()[slot as int].is_dir {
            assert(stands_for("childfolder"@, state.rows()[slot as int], higher));
        } else {
            assert(stands_for("childfile"@, state.rows()[slot as int], higher));
        }
    }
}

proof fn lemma_higher(path: Seq<char>, folder: Seq<char>, higher: Seq<char>)
    requires
        descendant_of(path, folder),
        descendant_of(folder, higher),
    ensures
        descendant_of(path, higher),
{
    lemma_above(folder, path);
    lemma_above(higher, folder);
    lemma_above(higher, path);
    topology::lemma_above_transitive(higher, folder, path);
}

/// How many of some slots hold a row of a kind.
pub open spec fn how_many(
    rows: Seq<IndexedFile>,
    slots: Seq<u32>,
    is: spec_fn(IndexedFile) -> bool,
) -> int {
    slots.filter(|slot: u32| is(rows[slot as int])).len() as int
}

/// The sizes of the rows in some slots, added up.
pub open spec fn added_sizes(rows: Seq<IndexedFile>, slots: Seq<u32>) -> int
    decreases slots.len(),
{
    if slots.len() == 0 {
        0
    } else {
        added_sizes(rows, slots.drop_last()) + rows[slots.last() as int].size
    }
}

proof fn lemma_counted(
    rows: Seq<IndexedFile>,
    slots: Seq<u32>,
    dirs: Seq<Seq<char>>,
    d: int,
    tally: Tally,
    is: spec_fn(IndexedFile) -> bool,
)
    requires
        !(tally is Size),
        forall|row: IndexedFile| #[trigger]
            is(row) == (topology::weight(dirs, 0, row, d, tally) == 1),
    ensures
        topology::total(rows, slots, dirs, 0, d, tally) == how_many(rows, slots, is),
    decreases slots.len(),
{
    reveal(Seq::filter);
    let chosen = |slot: u32| is(rows[slot as int]);
    if slots.len() > 0 {
        lemma_counted(rows, slots.drop_last(), dirs, d, tally, is);
        let row = rows[slots.last() as int];
        assert(is(row) == (topology::weight(dirs, 0, row, d, tally) == 1));
        assert(slots.filter(chosen) == (if chosen(slots.last()) {
            slots.drop_last().filter(chosen).push(slots.last())
        } else {
            slots.drop_last().filter(chosen)
        }));
    }
}

proof fn lemma_added(
    rows: Seq<IndexedFile>,
    slots: Seq<u32>,
    dirs: Seq<Seq<char>>,
    d: int,
    is: spec_fn(IndexedFile) -> bool,
)
    requires
        forall|row: IndexedFile| #[trigger]
            is(row) == (topology::weight(dirs, 0, row, d, Tally::Files) == 1),
    ensures
        topology::total(rows, slots, dirs, 0, d, Tally::Size) == added_sizes(
            rows,
            slots.filter(|slot: u32| is(rows[slot as int])),
        ),
    decreases slots.len(),
{
    reveal(Seq::filter);
    let chosen = |slot: u32| is(rows[slot as int]);
    if slots.len() > 0 {
        lemma_added(rows, slots.drop_last(), dirs, d, is);
        let row = rows[slots.last() as int];
        assert(is(row) == (topology::weight(dirs, 0, row, d, Tally::Files) == 1));
        let before = slots.drop_last().filter(chosen);
        assert(slots.filter(chosen) == (if chosen(slots.last()) {
            before.push(slots.last())
        } else {
            before
        }));
        assert(before.push(slots.last()).drop_last() =~= before);
    }
}

/// An entry that holds no others: a file, a link, or whatever else is no folder.
pub open spec fn plain_entry(row: IndexedFile) -> bool {
    !row.is_dir || row.is_symlink
}

/// The numbers of a folder are counted over the live rows: `child` numbers over those that lie
/// directly in it, `descendant` numbers over those at every depth below it; `file` numbers count
/// what is no folder, `folder` numbers count folders, and the others both. The size of a folder is
/// the sum of the sizes of all below it that is no folder, where that sum is a number of bytes at
/// all.
pub proof fn law_folder_numbers_count_rows(tree: Hierarchy, state: Snapshot, d: int)
    requires
        tree.describes(state),
        0 <= d < tree.directory_slots@.len(),
    ensures
        ({
            let folder = tree.dirs(state)[d];
            let rows = state.rows();
            let live = hierarchy::live_slots(state);
            let own_files = how_many(
                rows,
                live,
                |row: IndexedFile| child_of(row.path@, folder) && plain_entry(row),
            );
            let own_folders = how_many(
                rows,
                live,
                |row: IndexedFile| child_of(row.path@, folder) && !plain_entry(row),
            );
            let all_files = how_many(
                rows,
                live,
                |row: IndexedFile| descendant_of(row.path@, folder) && plain_entry(row),
            );
            let all_folders = how_many(
                rows,
                live,
                |row: IndexedFile| descendant_of(row.path@, folder) && !plain_entry(row),
            );
            let bytes = added_sizes(
                rows,
                live.filter(
                    |slot: u32|
                        descendant_of(rows[slot as int].path@, folder) && plain_entry(
                            rows[slot as int],
                        ),
                ),
            );
            let number = |name: Seq<char>| resolve::metric_of(tree, d, name);
            &&& number("childfilecount"@) == Some(own_files)
            &&& number("childfoldercount"@) == Some(own_folders)
            &&& number("childcount"@) == Some(own_files + own_folders)
            &&& number("descendantfilecount"@) == Some(all_files)
            &&& number("descendantfoldercount"@) == Some(all_folders)
            &&& number("descendantcount"@) == Some(all_files + all_folders)
            &&& number("foldersize"@) == (if bytes <= u64::MAX {
                Some(bytes)
            } else {
                None
            })
        }),
{
    let dirs = tree.dirs(state);
    let folder = dirs[d];
    let rows = state.rows();
    let live = hierarchy::live_slots(state);
    assert forall|path: Seq<char>|
        #![trigger child_of(path, folder)]
        #![trigger topology::directly_in(dirs, path, d)]
        topology::directly_in(dirs, path, d) == child_of(path, folder) by {
        if child_of(path, folder) {
            lemma_near(dirs, path, d);
        }
    }
    assert forall|path: Seq<char>|
        #![trigger descendant_of(path, folder)]
        #![trigger topology::leads_to(dirs, 0, path, d)]
        topology::leads_to(dirs, 0, path, d) == descendant_of(path, folder) by {
        topology::lemma_via_all(dirs, path, d);
        lemma_above(folder, path);
    }
    let a = |row: IndexedFile| child_of(row.path@, folder) && plain_entry(row);
    let b = |row: IndexedFile| child_of(row.path@, folder) && !plain_entry(row);
    let c = |row: IndexedFile| descendant_of(row.path@, folder) && plain_entry(row);
    let e = |row: IndexedFile| descendant_of(row.path@, folder) && !plain_entry(row);
    lemma_counted(rows, live, dirs, d, Tally::OwnFiles, a);
    lemma_counted(rows, live, dirs, d, Tally::OwnFolders, b);
    lemma_counted(rows, live, dirs, d, Tally::Files, c);
    lemma_counted(rows, live, dirs, d, Tally::Folders, e);
    lemma_added(rows, live, dirs, d, c);
    assert(live.filter(|slot: u32| c(rows[slot as int])) == live.filter(
        |slot: u32|
            descendant_of(rows[slot as int].path@, folder) && plain_entry(rows[slot as int]),
    )) by {
        assert((|slot: u32| c(rows[slot as int])) =~= (|slot: u32|
            descendant_of(rows[slot as int].path@, folder) && plain_entry(rows[slot as int])));
    }
    topology::lemma_total_bounds(rows, live, dirs, 0, d);
    lemma_metric_names();
    assert(tree.own_files@[d] == topology::total(rows, live, dirs, 0, d, Tally::OwnFiles));
    assert(tree.own_folders@[d] == topology::total(rows, live, dirs, 0, d, Tally::OwnFolders));
    assert(tree.all_files@[d] == topology::total(rows, live, dirs, 0, d, Tally::Files));
    assert(tree.all_folders@[d] == topology::total(rows, live, dirs, 0, d, Tally::Folders));
    assert(tree.sizes@[d] == hierarchy::fitting(
        topology::total(rows, live, dirs, 0, d, Tally::Size),
    ));
}

proof fn lemma_metric_names()
    ensures
        "foldersize"@.len() == 10,
        "childcount"@.len() == 10,
        "foldersize"@ != "childcount"@,
        "childfilecount"@.len() == 14,
        "childfoldercount"@.len() == 16,
        "descendantcount"@.len() == 15,
        "descendantfilecount"@.len() == 19,
        "descendantfoldercount"@.len() == 21,
{
    reveal_strlit("foldersize");
    reveal_strlit("childcount");
    reveal_strlit("childfilecount");
    reveal_strlit("childfoldercount");
    reveal_strlit("descendantcount");
    reveal_strlit("descendantfilecount");
    reveal_strlit("descendantfoldercount");
    assert("foldersize"@[0] == 'f');
    assert("childcount"@[0] == 'c');
}

/// What is told of a folder are these numbers too: how many lie directly in it and at every depth,
/// and its size, which counts as known only where the index holds all that is below the folder.
pub proof fn law_folder_information_tells_the_numbers(
    told: DirectoryInfo,
    tree: Hierarchy,
    state: Snapshot,
    coverage: Coverage,
    d: int,
)
    requires
        tree.describes(state),
        0 <= d < tree.directory_slots@.len(),
        hierarchy::informs(told, tree, state, coverage, tree.dirs(state)[d]),
    ensures
        told.path@ == tree.dirs(state)[d],
        told.indexed,
        resolve::metric_of(tree, d, "childcount"@) == Some(told.child_count as int),
        resolve::metric_of(tree, d, "descendantcount"@) == Some(told.descendant_count as int),
        resolve::metric_of(tree, d, "foldersize"@) == (match told.indexed_logical_size {
            Some(bytes) => Some(bytes as int),
            None => None,
        }),
        told.complete == (!hierarchy::uncertain(coverage, tree.dirs(state)[d])
            && told.indexed_logical_size is Some),
        told.recursive_size == (if told.complete {
            told.indexed_logical_size
        } else {
            None
        }),
{
    assert(tree.dirs(state).contains(tree.dirs(state)[d]));
    lemma_metric_names();
}

/// A question about a number of a folder is answered by that number: bounds hold of it, or do not
/// where they are negated. Where the index may not hold all that is below the folder, or the size
/// is no number of bytes, the answer is unknown, unless it was asked whether it is.
pub proof fn law_folder_numbers_answer_questions(
    tree: Hierarchy,
    state: Snapshot,
    coverage: Coverage,
    content: spec_fn(IndexedFile) -> Option<Seq<char>>,
    name: Seq<char>,
    low: i128,
    high: i128,
    negate: bool,
    d: int,
)
    requires
        tree.describes(state),
        rows_are_sound(state),
        0 <= d < tree.directory_slots@.len(),
        name == "foldersize"@ || name == "childcount"@ || name == "childfilecount"@ || name
            == "childfoldercount"@ || name == "descendantcount"@ || name == "descendantfilecount"@
            || name == "descendantfoldercount"@,
    ensures
        ({
            let folder = state.rows()[tree.directory_slots@[d] as int];
            let asked = QueryView::Term(
                TermView::Number {
                    field: name,
                    bounds: NumberBounds::Span(low, high),
                    negate,
                },
            );
            let value = resolve::metric_of(tree, d, name);
            let answer = resolve::said_of(
                resolve::settled(tree, state, coverage, content, asked),
                folder,
                content,
            );
            if hierarchy::uncertain(coverage, folder.path@) || value is None {
                answer is Unknown
            } else if negate {
                answer == evaluate::decided(!(low <= value->0 <= high))
            } else {
                answer == evaluate::decided(low <= value->0 <= high)
            }
        }),
{
    let folder = state.rows()[tree.directory_slots@[d] as int];
    let bounds = NumberBounds::Span(low, high);
    let term = TermView::Number { field: name, bounds, negate };
    let id = folder.id as u64;
    let yes = resolve::metric_ids(tree, state, coverage, term);
    let open = resolve::metric_unknown_ids(tree, state, coverage, term);
    hierarchy::lemma_directory(tree, state, d);
    assert(resolve::is_metric_term(term));
    assert forall|c: int|
        0 <= c < tree.directory_slots@.len() && #[trigger] resolve::directory_id(tree, state, c)
            == id implies c == d by {
        hierarchy::lemma_directory(tree, state, c);
        assert(tree.directory_slots@[c] == tree.directory_slots@[d]);
        topology::lemma_same_directory(tree.dirs(state), c, d);
    }
    assert(resolve::directory_id(tree, state, d) == id);
    assert(yes.contains(id) == resolve::metric_holds(tree, state, coverage, term, d));
    assert(open.contains(id) == resolve::metric_unknown(tree, state, coverage, term, d));
    let asked = QueryView::Term(term);
    assert(resolve::settled(tree, state, coverage, content, asked) == QueryView::Term(
        TermView::Resolved { yes, unknown: open },
    ));
}

/// An index may not hold all of a folder where its scan was not complete, where no root is the
/// folder or above it, and where a gap is the folder, above it or below it; otherwise it does.
pub proof fn law_folders_are_known_where_no_gap_touches_them(
    coverage: Coverage,
    folder: Seq<char>,
    root: Seq<char>,
    gap: Seq<char>,
)
    ensures
        !coverage.complete ==> hierarchy::uncertain(coverage, folder),
        text::texts(coverage.uncovered@).contains(gap) && (gap == folder || descendant_of(
            folder,
            gap,
        ) || descendant_of(gap, folder)) ==> hierarchy::uncertain(coverage, folder),
        (forall|i: int|
            0 <= i < coverage.roots@.len() ==> (#[trigger] coverage.roots@[i])@ != folder
                && !descendant_of(folder, coverage.roots@[i]@)) ==> hierarchy::uncertain(
            coverage,
            folder,
        ),
        coverage.complete && text::texts(coverage.roots@).contains(root) && (root == folder
            || descendant_of(folder, root)) && (forall|i: int|
            0 <= i < coverage.uncovered@.len() ==> {
                let one = (#[trigger] coverage.uncovered@[i])@;
                one != folder && !descendant_of(folder, one) && !descendant_of(one, folder)
            }) ==> !hierarchy::uncertain(coverage, folder),
{
    let (roots, gaps) = (text::texts(coverage.roots@), text::texts(coverage.uncovered@));
    assert forall|a: Seq<char>, b: Seq<char>| #[trigger]
        topology::at_or_above(a, b) == (a == b || descendant_of(b, a)) by {
        lemma_above(a, b);
    }
    if gaps.contains(gap) {
        let i = choose|i: int| 0 <= i < gaps.len() && gaps[i] == gap;
        assert(topology::at_or_above(gaps[i], folder) || !topology::at_or_above(gaps[i], folder));
        assert(topology::at_or_above(folder, gaps[i]) || !topology::at_or_above(folder, gaps[i]));
    }
    if roots.contains(root) {
        let i = choose|i: int| 0 <= i < roots.len() && roots[i] == root;
        assert(topology::at_or_above(roots[i], folder) || !topology::at_or_above(roots[i], folder));
    }
    if hierarchy::any_at_or_above(roots, folder) {
        let i = choose|i: int|
            0 <= i < roots.len() && topology::at_or_above(#[trigger] roots[i], folder);
        assert(roots[i] == coverage.roots@[i]@);
    }
    if hierarchy::any_at_or_above(gaps, folder) {
        let i = choose|i: int|
            0 <= i < gaps.len() && topology::at_or_above(#[trigger] gaps[i], folder);
        assert(gaps[i] == coverage.uncovered@[i]@);
    }
    if hierarchy::at_or_above_any(folder, gaps) {
        let i = choose|i: int|
            0 <= i < gaps.len() && topology::at_or_above(folder, #[trigger] gaps[i]);
        assert(gaps[i] == coverage.uncovered@[i]@);
    }
}

/// Of a folder that holds no match, but of which the index may not hold all, a relation stays
/// unknown and does not count as false.
pub proof fn law_relations_of_uncertain_folders_stay_unknown(
    tree: Hierarchy,
    state: Snapshot,
    coverage: Coverage,
    content: spec_fn(IndexedFile) -> Option<Seq<char>>,
    recursive: bool,
    query: QueryView,
    d: int,
)
    requires
        tree.describes(state),
        rows_are_sound(state),
        0 <= d < tree.directory_slots@.len(),
        hierarchy::uncertain(coverage, tree.dirs(state)[d]),
        !resolve::some_match(
            tree,
            state,
            recursive,
            resolve::settled(tree, state, coverage, content, query),
            content,
            d,
        ),
    ensures
        resolve::said_of(
            resolve::settled(
                tree,
                state,
                coverage,
                content,
                QueryView::Term(TermView::Related { recursive, query: Box::new(query) }),
            ),
            state.rows()[tree.directory_slots@[d] as int],
            content,
        ) is Unknown,
{
    let part = resolve::settled(tree, state, coverage, content, query);
    let row = state.rows()[tree.directory_slots@[d] as int];
    let id = row.id as u64;
    let yes = resolve::related_ids(tree, state, recursive, part, content);
    let open = resolve::unknown_ids(tree, state, coverage, recursive, part, content);
    reveal_with_fuel(resolve::settled, 2);
    hierarchy::lemma_directory(tree, state, d);
    assert(resolve::directory_id(tree, state, d) == id);
    assert(resolve::some_unknown(tree, state, coverage, recursive, part, content, d));
    assert(open.contains(id));
    if yes.contains(id) {
        let c = choose|c: int|
            0 <= c < tree.directory_slots@.len() && resolve::directory_id(tree, state, c) == id
                && #[trigger] resolve::some_match(tree, state, recursive, part, content, c);
        hierarchy::lemma_directory(tree, state, c);
        assert(tree.directory_slots@[c] == tree.directory_slots@[d]);
        topology::lemma_same_directory(tree.dirs(state), c, d);
    }
}

} // verus!
