//! Conditions on names alone, and on paths kept in two pieces.
use crate::bitmaps;
use crate::bitmaps::{slot_list, unite};
use crate::cancellation;
use crate::files::IndexedFile;
use crate::posting_map::same_bytes;
use crate::query::evaluate;
use crate::query::evaluate::Mode;
use crate::query::model;
use crate::query::model::{Query, QueryView, Term, TermView};
use crate::query::options::Field;
use crate::text;
use crate::text::find_bytes;
use rayon::iter::{IntoParallelIterator, ParallelIterator};
use roaring::RoaringBitmap;
use vstd::prelude::*;
use vstd::slice::slice_subrange;

verus! {

/// A condition on the bytes of a name.
#[derive(Debug)]
pub enum NameExpression {
    All,
    Text(Vec<u8>),
    And(Vec<NameExpression>),
    Or(Vec<NameExpression>),
    Not(Box<NameExpression>),
}

/// What a condition says of a name.
pub open spec fn holds(expression: NameExpression, name: Seq<u8>) -> bool
    decreases expression,
{
    match expression {
        NameExpression::All => true,
        NameExpression::Text(needle) => text::occurs(name, needle@),
        NameExpression::And(children) => all_hold(children@, name),
        NameExpression::Or(children) => any_holds(children@, name),
        NameExpression::Not(child) => !holds(*child, name),
    }
}

pub open spec fn all_hold(children: Seq<NameExpression>, name: Seq<u8>) -> bool
    decreases children,
{
    children.len() == 0 || (all_hold(children.drop_last(), name) && holds(children.last(), name))
}

pub open spec fn any_holds(children: Seq<NameExpression>, name: Seq<u8>) -> bool
    decreases children,
{
    children.len() > 0 && (any_holds(children.drop_last(), name) || holds(children.last(), name))
}

/// A query that only looks at names, without regard to case.
pub open spec fn names_only(query: QueryView) -> bool
    decreases query,
{
    match query {
        QueryView::All => true,
        QueryView::And(children) => all_names_only(children),
        QueryView::Or(children) => all_names_only(children),
        QueryView::Not(child) => names_only(*child),
        QueryView::Term(term) => match term {
            TermView::Text { field, needle, sensitive } => field == Field::Name && !sensitive,
            _ => false,
        },
    }
}

pub open spec fn all_names_only(queries: Seq<QueryView>) -> bool
    decreases queries,
{
    queries.len() == 0 || (all_names_only(queries.drop_last()) && names_only(queries.last()))
}

/// What such a query says of a name.
pub open spec fn says(query: QueryView, name: Seq<u8>) -> bool
    decreases query,
{
    match query {
        QueryView::All => true,
        QueryView::And(children) => all_say(children, name),
        QueryView::Or(children) => any_says(children, name),
        QueryView::Not(child) => !says(*child, name),
        QueryView::Term(term) => match term {
            TermView::Text { needle, .. } => text::occurs(name, text::bytes_of(needle)),
            _ => false,
        },
    }
}

pub open spec fn all_say(queries: Seq<QueryView>, name: Seq<u8>) -> bool
    decreases queries,
{
    queries.len() == 0 || (all_say(queries.drop_last(), name) && says(queries.last(), name))
}

pub open spec fn any_says(queries: Seq<QueryView>, name: Seq<u8>) -> bool
    decreases queries,
{
    queries.len() > 0 && (any_says(queries.drop_last(), name) || says(queries.last(), name))
}

/// What such a query says of a name is what evaluating it on the row says.
pub proof fn law_names_decide(query: QueryView, file: IndexedFile)
    requires
        names_only(query),
    ensures
        evaluate::verdict(Mode::Full, query, file, None) == evaluate::decided(
            says(query, text::bytes_of(file.search_name@)),
        ),
    decreases query,
{
    match query {
        QueryView::And(children) => lemma_all_say(children, file),
        QueryView::Or(children) => lemma_any_says(children, file),
        QueryView::Not(child) => law_names_decide(*child, file),
        _ => {},
    }
}

proof fn lemma_all_say(queries: Seq<QueryView>, file: IndexedFile)
    requires
        all_names_only(queries),
    ensures
        evaluate::combined(Mode::Full, queries, true, file, None) == evaluate::decided(
            all_say(queries, text::bytes_of(file.search_name@)),
        ),
    decreases queries,
{
    if queries.len() > 0 {
        lemma_all_say(queries.drop_last(), file);
        law_names_decide(queries.last(), file);
    }
}

proof fn lemma_any_says(queries: Seq<QueryView>, file: IndexedFile)
    requires
        all_names_only(queries),
    ensures
        evaluate::combined(Mode::Full, queries, false, file, None) == evaluate::decided(
            any_says(queries, text::bytes_of(file.search_name@)),
        ),
    decreases queries,
{
    if queries.len() > 0 {
        lemma_any_says(queries.drop_last(), file);
        law_names_decide(queries.last(), file);
    }
}

proof fn lemma_names_only(queries: Seq<QueryView>, count: int)
    requires
        0 <= count <= queries.len(),
        all_names_only(queries),
    ensures
        all_names_only(queries.take(count)),
    decreases queries.len() - count,
{
    if count == queries.len() {
        assert(queries.take(count) =~= queries);
    } else {
        lemma_names_only(queries, count + 1);
        assert(queries.take(count + 1).drop_last() =~= queries.take(count));
    }
}

/// A literal is among the conditions.
pub open spec fn has_literal(children: Seq<NameExpression>, needle: Seq<u8>) -> bool {
    exists|i: int|
        0 <= i < children.len() && ((#[trigger] children[i]) matches NameExpression::Text(held)
            && held@ == needle)
}

proof fn lemma_repeated_literal(children: Seq<NameExpression>, needle: Seq<u8>, name: Seq<u8>)
    requires
        has_literal(children, needle),
    ensures
        all_hold(children, name) ==> text::occurs(name, needle),
        text::occurs(name, needle) ==> any_holds(children, name),
    decreases children.len(),
{
    let i = choose|i: int|
        0 <= i < children.len() && ((#[trigger] children[i]) matches NameExpression::Text(held)
            && held@ == needle);
    reveal_with_fuel(holds, 2);
    reveal_with_fuel(all_hold, 2);
    reveal_with_fuel(any_holds, 2);
    if i < children.len() - 1 {
        assert(children.drop_last()[i] == children[i]);
        lemma_repeated_literal(children.drop_last(), needle, name);
    } else {
        assert(children.last() == children[i]);
    }
}

impl NameExpression {
    /// The condition of a query that only looks at names. Literals that occur twice in one
    /// conjunction or disjunction are looked for once.
    pub fn compile(query: &Query) -> (compiled: Option<NameExpression>)
        ensures
            match compiled {
                Some(expression) => names_only(query@) && forall|name: Seq<u8>| #[trigger]
                    holds(expression, name) == says(query@, name),
                None => !names_only(query@),
            },
        decreases query,
    {
        match query {
            Query::All => Some(NameExpression::All),
            Query::And(children) => Self::combine(children, true),
            Query::Or(children) => Self::combine(children, false),
            Query::Not(child) => match Self::compile(&**child) {
                Some(inner) => {
                    let whole = NameExpression::Not(Box::new(inner));
                    assert forall|name: Seq<u8>| #[trigger] holds(whole, name) == says(
                        query@,
                        name,
                    ) by {
                        assert(holds(inner, name) == says(child@, name));
                    }
                    Some(whole)
                },
                None => None,
            },
            Query::Term(term) => {
                assert(query@ == QueryView::Term(term@));
                match term {
                    Term::Text { field, needle, sensitive } => {
                        if !matches!(field, Field::Name) || *sensitive {
                            return None;
                        }
                        let mut bytes: Vec<u8> = Vec::new();
                        bytes.extend_from_slice(needle.as_str().as_bytes());
                        assert(bytes@ =~= text::bytes_of(needle@));
                        Some(NameExpression::Text(bytes))
                    },
                    _ => None,
                }
            },
        }
    }

    fn literal_seen(children: &Vec<NameExpression>, needle: &Vec<u8>) -> (seen: bool)
        ensures
            seen == has_literal(children@, needle@),
    {
        let mut next: usize = 0;
        while next < children.len()
            invariant
                next <= children@.len(),
                forall|i: int|
                    0 <= i < next ==> !((#[trigger] children@[i]) matches NameExpression::Text(held)
                        && held@ == needle@),
            decreases children@.len() - next,
        {
            if let NameExpression::Text(held) = &children[next] {
                if same_bytes(held.as_slice(), needle.as_slice()) {
                    return true;
                }
            }
            next = next + 1;
        }
        false
    }

    fn combine(queries: &Vec<Query>, conjunction: bool) -> (compiled: Option<NameExpression>)
        ensures
            match compiled {
                Some(expression) => all_names_only(model::query_views(queries@)) && forall|
                    name: Seq<u8>,
                | #[trigger]
                    holds(expression, name) == (if conjunction {
                        all_say(model::query_views(queries@), name)
                    } else {
                        any_says(model::query_views(queries@), name)
                    }),
                None => !all_names_only(model::query_views(queries@)),
            },
        decreases queries,
    {
        let ghost views = model::query_views(queries@);
        proof {
            model::lemma_query_views(queries@);
            assert(views.take(0) =~= Seq::<QueryView>::empty());
        }
        let mut children: Vec<NameExpression> = Vec::new();
        let mut next: usize = 0;
        while next < queries.len()
            invariant
                next <= queries@.len(),
                views == model::query_views(queries@),
                views.len() == queries@.len(),
                forall|i: int| 0 <= i < views.len() ==> views[i] == queries@[i]@,
                all_names_only(views.take(next as int)),
                forall|name: Seq<u8>| #[trigger]
                    all_hold(children@, name) == all_say(views.take(next as int), name)
                        || !conjunction,
                forall|name: Seq<u8>| #[trigger]
                    any_holds(children@, name) == any_says(views.take(next as int), name)
                        || conjunction,
            decreases queries@.len() - next,
        {
            assert(decreases_to!(queries => queries@[next as int]));
            let ghost part = views.take(next + 1);
            let ghost before = children@;
            assert(part.drop_last() =~= views.take(next as int));
            assert(part.last() == queries@[next as int]@);
            let child = match Self::compile(&queries[next]) {
                Some(child) => child,
                None => {
                    proof {
                        if all_names_only(views) {
                            lemma_names_only(views, next + 1);
                        }
                    }
                    return None;
                },
            };
            let repeated = match &child {
                NameExpression::Text(needle) => Self::literal_seen(&children, needle),
                _ => false,
            };
            proof {
                assert forall|name: Seq<u8>| holds(child, name) == says(part.last(), name) by {}
                assert(before.push(child).drop_last() =~= before);
            }
            if repeated {
                proof {
                    if let NameExpression::Text(needle) = child {
                        assert forall|name: Seq<u8>| #[trigger]
                            all_hold(children@, name) == all_say(part, name) || !conjunction by {
                            assert(holds(child, name) == says(part.last(), name));
                            lemma_repeated_literal(children@, needle@, name);
                        }
                        assert forall|name: Seq<u8>| #[trigger]
                            any_holds(children@, name) == any_says(part, name) || conjunction by {
                            assert(holds(child, name) == says(part.last(), name));
                            lemma_repeated_literal(children@, needle@, name);
                        }
                    }
                }
            } else {
                children.push(child);
                proof {
                    assert forall|name: Seq<u8>| #[trigger]
                        all_hold(children@, name) == all_say(part, name) || !conjunction by {
                        assert(holds(child, name) == says(part.last(), name));
                        assert(all_hold(before, name) == all_say(views.take(next as int), name)
                            || !conjunction);
                    }
                    assert forall|name: Seq<u8>| #[trigger]
                        any_holds(children@, name) == any_says(part, name) || conjunction by {
                        assert(holds(child, name) == says(part.last(), name));
                        assert(any_holds(before, name) == any_says(views.take(next as int), name)
                            || conjunction);
                    }
                }
            }
            next = next + 1;
        }
        assert(views.take(next as int) =~= views);
        let ghost all = children@;
        if children.len() == 1 {
            if let Some(only) = children.pop() {
                proof {
                    assert(only == all[0]);
                    assert forall|name: Seq<u8>| #[trigger] holds(only, name) == (if conjunction {
                        all_say(views, name)
                    } else {
                        any_says(views, name)
                    }) by {
                        assert(all.drop_last() =~= Seq::<NameExpression>::empty());
                        assert(all_hold(all, name) == all_say(views, name) || !conjunction);
                        assert(any_holds(all, name) == any_says(views, name) || conjunction);
                        assert(all_hold(all.drop_last(), name));
                        assert(!any_holds(all.drop_last(), name));
                    }
                }
                return Some(only);
            }
        }
        let whole = if conjunction {
            NameExpression::And(children)
        } else {
            NameExpression::Or(children)
        };
        proof {
            assert forall|name: Seq<u8>| #[trigger] holds(whole, name) == (if conjunction {
                all_say(views, name)
            } else {
                any_says(views, name)
            }) by {
                assert(all_hold(all, name) == all_say(views, name) || !conjunction);
                assert(any_holds(all, name) == any_says(views, name) || conjunction);
            }
        }
        Some(whole)
    }

    /// Whether a name satisfies the condition.
    pub fn matches(&self, name: &[u8]) -> (yes: bool)
        ensures
            yes == holds(*self, name@),
        decreases self,
    {
        match self {
            NameExpression::All => true,
            NameExpression::Text(needle) => find_bytes(name, needle.as_slice()).is_some(),
            NameExpression::And(children) => Self::each_matches(children, name, true),
            NameExpression::Or(children) => Self::each_matches(children, name, false),
            NameExpression::Not(child) => !child.matches(name),
        }
    }

    fn each_matches(children: &Vec<NameExpression>, name: &[u8], conjunction: bool) -> (yes: bool)
        ensures
            yes == (if conjunction {
                all_hold(children@, name@)
            } else {
                any_holds(children@, name@)
            }),
        decreases children,
    {
        let mut yes = conjunction;
        let mut next: usize = 0;
        assert(children@.take(0) =~= Seq::<NameExpression>::empty());
        while next < children.len()
            invariant
                next <= children@.len(),
                yes == (if conjunction {
                    all_hold(children@.take(next as int), name@)
                } else {
                    any_holds(children@.take(next as int), name@)
                }),
            decreases children@.len() - next,
        {
            assert(decreases_to!(children => children@[next as int]));
            let ghost part = children@.take(next + 1);
            assert(part.drop_last() =~= children@.take(next as int));
            assert(part.last() == children@[next as int]);
            if yes == conjunction {
                yes = children[next].matches(name);
            }
            next = next + 1;
        }
        assert(children@.take(next as int) =~= children@);
        yes
    }
}

/// A row's name satisfies a condition and none of the exclusions.
pub open spec fn chosen(
    query: NameExpression,
    exclusions: Seq<NameExpression>,
    file: IndexedFile,
) -> bool {
    let name = text::bytes_of(file.search_name@);
    holds(query, name) && !any_holds(exclusions, name)
}

/// The slots of a list whose rows are chosen.
pub open spec fn chosen_slots(
    query: NameExpression,
    exclusions: Seq<NameExpression>,
    rows: Seq<IndexedFile>,
    list: Seq<u32>,
) -> Set<u32> {
    Set::new(|slot: u32| list.contains(slot) && chosen(query, exclusions, rows[slot as int]))
}

/// The slots of a list whose names satisfy a condition and none of the exclusions.
fn evaluate_part<C: Fn() -> bool>(
    query: &NameExpression,
    exclusions: &Vec<NameExpression>,
    rows: &Vec<IndexedFile>,
    list: &[u32],
    cancelled: &C,
) -> (result: Result<RoaringBitmap, String>)
    requires
        forall|i: int| 0 <= i < list@.len() ==> (#[trigger] list@[i]) < rows@.len(),
        call_requires(*cancelled, ()),
    ensures
        match result {
            Ok(found) => bitmaps::slots_in(found) == chosen_slots(
                *query,
                exclusions@,
                rows@,
                list@,
            ),
            Err(reason) => reason@ == "Query cancelled"@ && call_ensures(*cancelled, (), true),
        },
        cancellation::always(*cancelled) && list@.len() > 0 ==> result is Err,
{
    let mut found = RoaringBitmap::new();
    let mut next: usize = 0;
    assert(bitmaps::slots_in(found) =~= chosen_slots(*query, exclusions@, rows@, list@.take(0)));
    while next < list.len()
        invariant
            next <= list@.len(),
            next > 0 ==> !cancellation::always(*cancelled),
            forall|i: int| 0 <= i < list@.len() ==> (#[trigger] list@[i]) < rows@.len(),
            call_requires(*cancelled, ()),
            bitmaps::slots_in(found) == chosen_slots(
                *query,
                exclusions@,
                rows@,
                list@.take(next as int),
            ),
        decreases list@.len() - next,
    {
        if cancelled() {
            return Err("Query cancelled".to_owned());
        }
        let slot = list[next];
        let ghost (done, part) = (list@.take(next as int), list@.take(next + 1));
        let ghost before = bitmaps::slots_in(found);
        let name = rows[slot as usize].search_name.as_str().as_bytes();
        let take = query.matches(name) && !NameExpression::each_matches(exclusions, name, false);
        if take {
            found.insert(slot);
        }
        proof {
            assert(part =~= done.push(slot));
            let want = chosen_slots(*query, exclusions@, rows@, part);
            assert forall|t: u32| #[trigger] bitmaps::slots_in(found).contains(t) == want.contains(
                t,
            ) by {
                if part.contains(t) {
                    let k = choose|k: int| 0 <= k < part.len() && part[k] == t;
                    if k < done.len() {
                        assert(done[k] == t);
                    }
                }
                if done.contains(t) {
                    let k = choose|k: int| 0 <= k < done.len() && done[k] == t;
                    assert(part[k] == t);
                }
                assert(part[next as int] == slot);
            }
            assert(bitmaps::slots_in(found) =~= want);
        }
        next = next + 1;
    }
    assert(list@.take(next as int) =~= list@);
    Ok(found)
}

/// The slots of a list whose names satisfy a condition and none of the exclusions.
pub fn evaluate_slots<C: Fn() -> bool>(
    query: &NameExpression,
    exclusions: &Vec<NameExpression>,
    rows: &Vec<IndexedFile>,
    list: &[u32],
    cancelled: C,
) -> (result: Result<RoaringBitmap, String>)
    requires
        forall|i: int| 0 <= i < list@.len() ==> (#[trigger] list@[i]) < rows@.len(),
        call_requires(cancelled, ()),
    ensures
        match result {
            Ok(found) => bitmaps::slots_in(found) == chosen_slots(
                *query,
                exclusions@,
                rows@,
                list@,
            ),
            Err(reason) => reason@ == "Query cancelled"@ && call_ensures(cancelled, (), true),
        },
        cancellation::always(cancelled) && list@.len() > 0 ==> result is Err,
{
    evaluate_part(query, exclusions, rows, list, &cancelled)
}

/// Where the part of a worker begins in a list of a length.
pub open spec fn part_start(length: int, workers: int, worker: int) -> int {
    length * worker / workers
}

/// Divide a list among workers: the places where their parts begin and end.
pub fn boundaries(length: u32, workers: u32) -> (places: Vec<u32>)
    requires
        workers > 0,
    ensures
        places@.len() == workers + 1,
        forall|w: int|
            0 <= w <= workers ==> #[trigger] places@[w] == part_start(
                length as int,
                workers as int,
                w,
            ),
        places@[0] == 0,
        places@[workers as int] == length,
        forall|a: int, b: int|
            0 <= a <= b <= workers ==> #[trigger] places@[a] <= #[trigger] places@[b],
{
    let mut places: Vec<u32> = Vec::new();
    let mut worker: u64 = 0;
    while worker <= workers as u64
        invariant
            worker <= workers + 1,
            workers > 0,
            places@.len() == worker,
            forall|w: int|
                0 <= w < worker ==> #[trigger] places@[w] == part_start(
                    length as int,
                    workers as int,
                    w,
                ),
        decreases workers + 1 - worker,
    {
        assert(0 <= length * worker <= length * workers) by (nonlinear_arith)
            requires
                0 <= worker <= workers,
                0 <= length,
        ;
        assert(length * workers <= 0xffff_ffff * 0xffff_ffff) by (nonlinear_arith)
            requires
                length <= 0xffff_ffff,
                workers <= 0xffff_ffff,
        ;
        let product: u64 = length as u64 * worker;
        assert(product as int / workers as int <= length) by (nonlinear_arith)
            requires
                0 <= product <= length * workers,
                workers > 0,
        ;
        let place: u64 = product / workers as u64;
        places.push(place as u32);
        worker = worker + 1;
    }
    proof {
        assert(part_start(length as int, workers as int, 0) == 0) by (nonlinear_arith)
            requires
                workers > 0,
        ;
        assert(part_start(length as int, workers as int, workers as int) == length) by (
        nonlinear_arith)
            requires
                workers > 0,
        ;
        assert forall|a: int, b: int| 0 <= a <= b <= workers implies #[trigger] places@[a]
            <= #[trigger] places@[b] by {
            assert(length * a <= length * b) by (nonlinear_arith)
                requires
                    0 <= a <= b,
                    0 <= length,
            ;
            assert((length * a) / (workers as int) <= (length * b) / (workers as int)) by (
            nonlinear_arith)
                requires
                    length * a <= length * b,
                    workers > 0,
            ;
        }
    }
    places
}

/// Two parts of a list, evaluated apart, give what the whole gives.
pub proof fn law_parts_give_the_whole(
    query: NameExpression,
    exclusions: Seq<NameExpression>,
    rows: Seq<IndexedFile>,
    list: Seq<u32>,
    at: int,
)
    requires
        0 <= at <= list.len(),
    ensures
        chosen_slots(query, exclusions, rows, list.take(at)).union(
            chosen_slots(query, exclusions, rows, list.skip(at)),
        ) == chosen_slots(query, exclusions, rows, list),
{
    let (a, b) = (list.take(at), list.skip(at));
    let both = chosen_slots(query, exclusions, rows, a).union(
        chosen_slots(query, exclusions, rows, b),
    );
    let all = chosen_slots(query, exclusions, rows, list);
    assert forall|t: u32| #[trigger] both.contains(t) == all.contains(t) by {
        if a.contains(t) {
            let k = choose|k: int| 0 <= k < a.len() && a[k] == t;
            assert(list[k] == t);
        }
        if b.contains(t) {
            let k = choose|k: int| 0 <= k < b.len() && b[k] == t;
            assert(list[k + at] == t);
        }
        if list.contains(t) {
            let k = choose|k: int| 0 <= k < list.len() && list[k] == t;
            if k < at {
                assert(a[k] == t);
            } else {
                assert(b[k - at] == t);
            }
        }
    }
    assert(both =~= all);
}

/// `rayon`'s `into_par_iter` over a range, mapped and collected: what each number gives, in the
/// order of the numbers. It panics on a host that cannot start threads; nothing is stated of that.
#[verifier::external_body]
fn in_parallel<T: Send, F: Fn(usize) -> T + Sync + Send>(count: usize, work: F) -> (results: Vec<T>)
    requires
        forall|i: usize| i < count ==> call_requires(work, (i,)),
    ensures
        results@.len() == count,
        forall|i: int|
            0 <= i < count ==> call_ensures(work, (i as usize,), #[trigger] results@[i]),
{
    (0..count).into_par_iter().map(work).collect()
}

/// The slots of a list whose names satisfy a condition and none of the exclusions, looked for by
/// several workers at once. How many there are does not change what is found.
pub fn evaluate_partitioned<C: Fn() -> bool + Sync>(
    query: &NameExpression,
    exclusions: &Vec<NameExpression>,
    rows: &Vec<IndexedFile>,
    list: &Vec<u32>,
    workers: usize,
    cancelled: C,
) -> (result: Result<RoaringBitmap, String>)
    requires
        list@.len() <= u32::MAX,
        forall|i: int| 0 <= i < list@.len() ==> (#[trigger] list@[i]) < rows@.len(),
        call_requires(cancelled, ()),
    ensures
        match result {
            Ok(found) => bitmaps::slots_in(found) == chosen_slots(
                *query,
                exclusions@,
                rows@,
                list@,
            ),
            Err(reason) => reason@ == "Query cancelled"@ && call_ensures(cancelled, (), true),
        },
        cancellation::always(cancelled) && list@.len() > 0 ==> result is Err,
{
    if workers <= 1 || list.len() == 0 {
        return evaluate_part(query, exclusions, rows, list.as_slice(), &cancelled);
    }
    let workers: usize = if workers < list.len() {
        workers
    } else {
        list.len()
    };
    let places = boundaries(list.len() as u32, workers as u32);
    let asked = &cancelled;
    let starts = &places;
    let work = |worker: usize| -> (part: Result<RoaringBitmap, String>)
        requires
            worker < workers,
        ensures
            match part {
                Ok(found) => bitmaps::slots_in(found) == chosen_slots(
                    *query,
                    exclusions@,
                    rows@,
                    list@.subrange(starts@[worker as int] as int, starts@[worker + 1] as int),
                ),
                Err(reason) => reason@ == "Query cancelled"@ && call_ensures(*asked, (), true),
            },
            cancellation::always(*asked) && starts@[worker as int] < starts@[worker + 1]
                ==> part is Err,
        {
            assert(starts@[worker as int] <= starts@[worker + 1]);
            assert(starts@[worker + 1] <= starts@[workers as int]);
            let part = slice_subrange(
                list.as_slice(),
                starts[worker] as usize,
                starts[worker + 1] as usize,
            );
            evaluate_part(query, exclusions, rows, part, asked)
        };
    let parts = in_parallel(workers, work);
    proof {
        let length = list@.len() as int;
        assert(part_start(length, workers as int, 1) >= 1) by (nonlinear_arith)
            requires
                0 < workers <= length,
        ;
        assert(places@[0] < places@[1]);
        assert(call_ensures(work, (0usize,), parts@[0]));
    }
    let mut found = RoaringBitmap::new();
    let mut next: usize = 0;
    assert(list@.take(0) =~= Seq::<u32>::empty());
    assert(bitmaps::slots_in(found) =~= chosen_slots(*query, exclusions@, rows@, list@.take(0)));
    while next < parts.len()
        invariant
            next <= parts@.len(),
            parts@.len() == workers,
            cancellation::always(cancelled) ==> parts@[0] is Err,
            next > 0 ==> parts@[0] is Ok,
            workers > 0,
            places@.len() == workers + 1,
            places@[0] == 0,
            places@[workers as int] == list@.len(),
            forall|a: int, b: int|
                0 <= a <= b <= workers ==> #[trigger] places@[a] <= #[trigger] places@[b],
            forall|i: int|
                0 <= i < workers ==> match #[trigger] parts@[i] {
                    Ok(part) => bitmaps::slots_in(part) == chosen_slots(
                        *query,
                        exclusions@,
                        rows@,
                        list@.subrange(places@[i] as int, places@[i + 1] as int),
                    ),
                    Err(reason) => reason@ == "Query cancelled"@ && call_ensures(
                        cancelled,
                        (),
                        true,
                    ),
                },
            bitmaps::slots_in(found) == chosen_slots(
                *query,
                exclusions@,
                rows@,
                list@.take(places@[next as int] as int),
            ),
        decreases parts@.len() - next,
    {
        assert(places@[next as int] <= places@[next + 1]);
        assert(places@[next + 1] <= places@[workers as int]);
        match &parts[next] {
            Ok(part) => {
                proof {
                    let (from, to) = (places@[next as int] as int, places@[next + 1] as int);
                    let whole = list@.take(to);
                    assert(whole.take(from) =~= list@.take(from));
                    assert(whole.skip(from) =~= list@.subrange(from, to));
                    law_parts_give_the_whole(*query, exclusions@, rows@, whole, from);
                }
                unite(&mut found, part);
            },
            Err(reason) => {
                return Err(reason.as_str().to_owned());
            },
        }
        next = next + 1;
    }
    assert(list@.take(list@.len() as int) =~= list@);
    Ok(found)
}

/// So many candidates are worth a worker of their own.
pub const PARTITION_CANDIDATES: u64 = 32_768;

/// The candidates whose names satisfy a condition and none of the exclusions. `acquire` says how
/// many of the workers asked for may be had, if any.
pub fn evaluate<C: Fn() -> bool + Sync, A: Fn(usize) -> Option<usize>>(
    query: &NameExpression,
    exclusions: &Vec<NameExpression>,
    rows: &Vec<IndexedFile>,
    candidates: &RoaringBitmap,
    acquire: A,
    cancelled: C,
) -> (result: Result<RoaringBitmap, String>)
    requires
        rows@.len() <= u32::MAX,
        forall|slot: u32| #[trigger]
            bitmaps::slots_in(*candidates).contains(slot) ==> slot < rows@.len(),
        forall|workers: usize| call_requires(acquire, (workers,)),
        call_requires(cancelled, ()),
    ensures
        match result {
            Ok(found) => forall|slot: u32| #[trigger]
                bitmaps::slots_in(found).contains(slot) == (bitmaps::slots_in(*candidates).contains(
                    slot,
                ) && chosen(*query, exclusions@, rows@[slot as int])),
            Err(reason) => reason@ == "Query cancelled"@ && call_ensures(cancelled, (), true),
        },
        cancellation::always(cancelled) && bitmaps::slots_in(*candidates) != Set::<u32>::empty()
            ==> result is Err,
{
    let list = slot_list(candidates);
    proof {
        assert forall|i: int| 0 <= i < list@.len() implies (#[trigger] list@[i]) < rows@.len() by {
            assert(list@.to_set().contains(list@[i]));
        }
        assert(list@.len() == 0 ==> list@.to_set() =~= Set::<u32>::empty());
        lemma_ascending_length(list@, rows@.len() as int);
        assert forall|slot: u32| #[trigger]
            chosen_slots(*query, exclusions@, rows@, list@).contains(slot) == (bitmaps::slots_in(
            *candidates,
        ).contains(slot) && chosen(*query, exclusions@, rows@[slot as int])) by {
            assert(list@.to_set().contains(slot) == list@.contains(slot));
        }
    }
    let wanted: u64 = candidates.len() / PARTITION_CANDIDATES;
    if wanted > 1 && wanted <= usize::MAX as u64 {
        if let Some(granted) = acquire(wanted as usize) {
            return evaluate_partitioned(query, exclusions, rows, &list, granted, cancelled);
        }
    }
    evaluate_slots(query, exclusions, rows, list.as_slice(), cancelled)
}

/// Different slots below a bound are no more than the bound.
proof fn lemma_ascending_length(list: Seq<u32>, bound: int)
    requires
        0 <= bound,
        forall|i: int| 0 <= i < list.len() ==> (#[trigger] list[i]) < bound,
        forall|i: int, j: int| 0 <= i < j < list.len() ==> #[trigger] list[i] < #[trigger] list[j],
    ensures
        list.len() <= bound,
    decreases list.len(),
{
    if list.len() > 0 {
        let last = list.last() as int;
        assert forall|i: int| 0 <= i < list.drop_last().len() implies (#[trigger] list.drop_last()[i])
            < last by {
            assert(list.drop_last()[i] == list[i]);
            assert(list[i] < list[list.len() - 1]);
        }
        lemma_ascending_length(list.drop_last(), last);
    }
}

/// A path in two pieces: up to and with its last slash, and behind it.
pub open spec fn split_path(prefix: Seq<u8>, suffix: Seq<u8>) -> bool {
    (prefix.len() == 0 || prefix.last() == 0x2f) && !suffix.contains(0x2fu8)
}

/// What the first piece of a path says about a literal in the whole.
#[derive(Clone, Copy, Debug, PartialEq, Eq, Structural)]
pub enum PrefixState {
    /// It is not in the path.
    Impossible,
    /// It is in the path if the second piece says so.
    Depends,
    /// It is in the path.
    Found,
}

/// Where the part of a literal behind its last slash begins.
pub open spec fn behind_slash(needle: Seq<u8>, count: int) -> int
    decreases count,
{
    if count <= 0 {
        0
    } else if needle[count - 1] == 0x2f {
        count
    } else {
        behind_slash(needle, count - 1)
    }
}

proof fn lemma_behind_slash(needle: Seq<u8>, count: int)
    requires
        0 <= count <= needle.len(),
    ensures
        0 <= behind_slash(needle, count) <= count,
        behind_slash(needle, count) > 0 ==> needle[behind_slash(needle, count) - 1] == 0x2f,
        forall|i: int| behind_slash(needle, count) <= i < count ==> #[trigger] needle[i] != 0x2f,
    decreases count,
{
    if count > 0 && needle[count - 1] != 0x2f {
        lemma_behind_slash(needle, count - 1);
    }
}

/// One run of bytes ends with another.
pub open spec fn ends_with(bytes: Seq<u8>, tail: Seq<u8>) -> bool {
    tail.len() <= bytes.len() && bytes.skip(bytes.len() - tail.len()) == tail
}

/// What the first piece of a path says about a literal.
pub open spec fn prefix_state(prefix: Seq<u8>, needle: Seq<u8>) -> PrefixState {
    let split = behind_slash(needle, needle.len() as int);
    if text::occurs(prefix, needle) {
        PrefixState::Found
    } else if split == 0 || ends_with(prefix, needle.take(split)) {
        PrefixState::Depends
    } else {
        PrefixState::Impossible
    }
}

/// What the second piece says, where it depends on it.
pub open spec fn suffix_says(suffix: Seq<u8>, needle: Seq<u8>) -> bool {
    let split = behind_slash(needle, needle.len() as int);
    if split == 0 {
        text::occurs(suffix, needle)
    } else {
        let rest = needle.skip(split);
        rest.len() <= suffix.len() && suffix.take(rest.len() as int) == rest
    }
}

fn starts_at(bytes: &[u8], at: usize, part: &[u8], from: usize, to: usize) -> (same: bool)
    requires
        from <= to <= part@.len(),
        at + (to - from) <= bytes@.len(),
    ensures
        same == (bytes@.subrange(at as int, at + (to - from)) == part@.subrange(
            from as int,
            to as int,
        )),
{
    let count: usize = to - from;
    let size = bytes.len();
    let mut next: usize = 0;
    let ghost (a, b) = (
        bytes@.subrange(at as int, at + count),
        part@.subrange(from as int, to as int),
    );
    while next < count
        invariant
            next <= count,
            count == to - from,
            from <= to <= part@.len(),
            size == bytes@.len(),
            at + count <= size,
            a == bytes@.subrange(at as int, at + count),
            b == part@.subrange(from as int, to as int),
            forall|i: int| 0 <= i < next ==> #[trigger] a[i] == b[i],
        decreases count - next,
    {
        if bytes[at + next] != part[from + next] {
            assert(a[next as int] != b[next as int]);
            return false;
        }
        next = next + 1;
    }
    assert(a =~= b);
    true
}

fn slash_place(needle: &[u8]) -> (split: usize)
    ensures
        split == behind_slash(needle@, needle@.len() as int),
        split <= needle@.len(),
{
    let mut left = needle.len();
    while left > 0
        invariant
            left <= needle@.len(),
            behind_slash(needle@, needle@.len() as int) == behind_slash(needle@, left as int),
        decreases left,
    {
        if needle[left - 1] == 0x2f {
            return left;
        }
        left = left - 1;
    }
    0
}

/// What the first piece of a path says about a literal. Rows of one directory share it.
pub fn prefix_says(prefix: &[u8], needle: &[u8]) -> (state: PrefixState)
    ensures
        state == prefix_state(prefix@, needle@),
{
    if find_bytes(prefix, needle).is_some() {
        return PrefixState::Found;
    }
    let split = slash_place(needle);
    if split == 0 {
        return PrefixState::Depends;
    }
    if split <= prefix.len() {
        let at = prefix.len() - split;
        if starts_at(prefix, at, needle, 0, split) {
            proof {
                assert(prefix@.skip(at as int) =~= prefix@.subrange(at as int, at + split));
                assert(needle@.take(split as int) =~= needle@.subrange(0, split as int));
            }
            return PrefixState::Depends;
        }
        proof {
            assert(prefix@.skip(at as int) =~= prefix@.subrange(at as int, at + split));
            assert(needle@.take(split as int) =~= needle@.subrange(0, split as int));
        }
    }
    PrefixState::Impossible
}

/// Whether a literal is in a path that is kept in two pieces.
pub fn path_matches(state: PrefixState, suffix: &[u8], needle: &[u8]) -> (yes: bool)
    ensures
        yes == (state is Found || (state is Depends && suffix_says(suffix@, needle@))),
{
    match state {
        PrefixState::Found => true,
        PrefixState::Impossible => false,
        PrefixState::Depends => {
            let split = slash_place(needle);
            if split == 0 {
                return find_bytes(suffix, needle).is_some();
            }
            let rest = needle.len() - split;
            if rest > suffix.len() {
                return false;
            }
            proof {
                assert(needle@.skip(split as int) =~= needle@.subrange(
                    split as int,
                    needle@.len() as int,
                ));
                assert(suffix@.take(rest as int) =~= suffix@.subrange(0, rest as int));
            }
            starts_at(suffix, 0, needle, split, needle.len())
        },
    }
}

/// A path in two pieces is searched as the whole is.
pub proof fn law_pieces_are_searched_as_the_whole(
    prefix: Seq<u8>,
    suffix: Seq<u8>,
    needle: Seq<u8>,
)
    requires
        split_path(prefix, suffix),
    ensures
        ({
            let state = prefix_state(prefix, needle);
            text::occurs(prefix + suffix, needle) == (state is Found || (state is Depends
                && suffix_says(suffix, needle)))
        }),
{
    let whole = prefix + suffix;
    let split = behind_slash(needle, needle.len() as int);
    let n = needle.len() as int;
    let p = prefix.len() as int;
    lemma_behind_slash(needle, n);
    let state = prefix_state(prefix, needle);
    if text::occurs(prefix, needle) {
        let at = choose|at: int| text::occurs_at(prefix, needle, at);
        assert(whole.subrange(at, at + n) =~= prefix.subrange(at, at + n));
        assert(text::occurs_at(whole, needle, at));
    } else {
        if text::occurs(whole, needle) {
            let at = choose|at: int| text::occurs_at(whole, needle, at);
            let here = whole.subrange(at, at + n);
            if at + n <= p {
                assert(prefix.subrange(at, at + n) =~= here);
                assert(text::occurs_at(prefix, needle, at));
            } else if at >= p {
                // All of it is in the second piece, which has no slash.
                assert(suffix.subrange(at - p, at - p + n) =~= here);
                if split > 0 {
                    assert(here[split - 1] == 0x2f);
                    assert(suffix[at - p + split - 1] == 0x2f);
                    assert(suffix.contains(0x2fu8));
                }
                assert(text::occurs_at(suffix, needle, at - p));
            } else {
                // It spans the slash at the end of the first piece, which is its own last one.
                let k = p - at;
                assert(here[k - 1] == whole[p - 1]);
                assert(needle[k - 1] == 0x2f);
                assert(split >= k);
                if split > k {
                    assert(here[split - 1] == whole[at + split - 1]);
                    assert(suffix[at + split - 1 - p] == 0x2f);
                    assert(suffix.contains(0x2fu8));
                }
                assert(split == k);
                assert(prefix.skip(p - split) =~= needle.take(split)) by {
                    assert forall|i: int| 0 <= i < split implies prefix.skip(p - split)[i]
                        == needle.take(split)[i] by {
                        assert(here[i] == whole[at + i]);
                    }
                }
                let rest = needle.skip(split);
                assert(suffix.take(rest.len() as int) =~= rest) by {
                    assert forall|i: int| 0 <= i < rest.len() implies suffix.take(
                        rest.len() as int,
                    )[i] == rest[i] by {
                        assert(here[split + i] == whole[at + split + i]);
                    }
                }
            }
        }
        if state is Depends && suffix_says(suffix, needle) {
            if split == 0 {
                let at = choose|at: int| text::occurs_at(suffix, needle, at);
                assert(whole.subrange(p + at, p + at + n) =~= suffix.subrange(at, at + n));
                assert(text::occurs_at(whole, needle, p + at));
            } else {
                let at = p - split;
                let rest = needle.skip(split);
                assert(whole.subrange(at, at + n) =~= needle) by {
                    assert forall|i: int| 0 <= i < n implies whole.subrange(at, at + n)[i]
                        == needle[i] by {
                        if i < split {
                            assert(prefix.skip(p - split)[i] == needle.take(split)[i]);
                        } else {
                            assert(suffix.take(rest.len() as int)[i - split] == rest[i - split]);
                        }
                    }
                }
                assert(text::occurs_at(whole, needle, at));
            }
        }
    }
}

/// A path behind the directory that it shares with others.
#[derive(Debug)]
pub struct SplitPath {
    pub directory: usize,
    pub name: Vec<u8>,
}

/// The paths of rows in two pieces, normalized as the literal is that is looked for.
#[derive(Debug)]
pub struct PathPieces {
    pub directories: Vec<Vec<u8>>,
    pub rows: Vec<SplitPath>,
}

impl PathPieces {
    /// Each row has a directory, which ends in its last slash.
    pub open spec fn wf(&self) -> bool {
        forall|i: int|
            0 <= i < self.rows@.len() ==> {
                let row = #[trigger] self.rows@[i];
                row.directory < self.directories@.len() && split_path(
                    self.directories@[row.directory as int]@,
                    row.name@,
                )
            }
    }

    /// The whole path of a row.
    pub open spec fn path(&self, slot: int) -> Seq<u8> {
        let row = self.rows@[slot];
        self.directories@[row.directory as int]@ + row.name@
    }
}

/// The live rows whose paths hold a literal. What a directory says of it is found out once.
pub fn match_paths<C: Fn() -> bool>(
    table: &PathPieces,
    needle: &[u8],
    live: &RoaringBitmap,
    cancelled: C,
) -> (result: Result<RoaringBitmap, String>)
    requires
        table.wf(),
        forall|slot: u32| #[trigger]
            bitmaps::slots_in(*live).contains(slot) ==> slot < table.rows@.len(),
        call_requires(cancelled, ()),
    ensures
        match result {
            Ok(found) => forall|slot: u32| #[trigger]
                bitmaps::slots_in(found).contains(slot) == (bitmaps::slots_in(*live).contains(slot)
                    && text::occurs(table.path(slot as int), needle@)),
            Err(reason) => reason@ == "Query cancelled"@ && call_ensures(cancelled, (), true),
        },
        cancellation::always(cancelled) && bitmaps::slots_in(*live) != Set::<u32>::empty()
            ==> result is Err,
{
    let mut states: Vec<Option<PrefixState>> = Vec::new();
    while states.len() < table.directories.len()
        invariant
            states@.len() <= table.directories@.len(),
            forall|d: int| 0 <= d < states@.len() ==> #[trigger] states@[d] is None,
        decreases table.directories@.len() - states@.len(),
    {
        states.push(None);
    }
    let list = slot_list(live);
    let mut found = RoaringBitmap::new();
    let mut next: usize = 0;
    while next < list.len()
        invariant
            next <= list@.len(),
            next > 0 ==> !cancellation::always(cancelled),
            table.wf(),
            call_requires(cancelled, ()),
            list@.to_set() == bitmaps::slots_in(*live),
            forall|slot: u32| #[trigger]
                bitmaps::slots_in(*live).contains(slot) ==> slot < table.rows@.len(),
            states@.len() == table.directories@.len(),
            forall|d: int|
                0 <= d < states@.len() ==> match #[trigger] states@[d] {
                    Some(state) => state == prefix_state(table.directories@[d]@, needle@),
                    None => true,
                },
            forall|slot: u32| #[trigger]
                bitmaps::slots_in(found).contains(slot) == (list@.take(next as int).contains(slot)
                    && text::occurs(table.path(slot as int), needle@)),
        decreases list@.len() - next,
    {
        if cancelled() {
            return Err("Query cancelled".to_owned());
        }
        let slot = list[next];
        assert(list@.to_set().contains(slot));
        let row = &table.rows[slot as usize];
        let directory = row.directory;
        let state = match states[directory] {
            Some(state) => state,
            None => {
                let state = prefix_says(table.directories[directory].as_slice(), needle);
                states.set(directory, Some(state));
                state
            },
        };
        proof {
            law_pieces_are_searched_as_the_whole(
                table.directories@[directory as int]@,
                row.name@,
                needle@,
            );
            let (done, part) = (list@.take(next as int), list@.take(next + 1));
            assert(part =~= done.push(slot));
            assert forall|t: u32| #[trigger] part.contains(t) == (done.contains(t) || t == slot) by {
                if done.contains(t) {
                    let k = choose|k: int| 0 <= k < done.len() && done[k] == t;
                    assert(part[k] == t);
                }
                assert(part[next as int] == slot);
            }
        }
        if path_matches(state, row.name.as_slice(), needle) {
            found.insert(slot);
        }
        next = next + 1;
    }
    proof {
        assert(list@.take(next as int) =~= list@);
        assert(list@.len() == 0 ==> list@.to_set() =~= Set::<u32>::empty());
        assert forall|slot: u32| #[trigger] bitmaps::slots_in(found).contains(slot) == (
        bitmaps::slots_in(*live).contains(slot) && text::occurs(
            table.path(slot as int),
            needle@,
        )) by {
            assert(list@.to_set().contains(slot) == list@.contains(slot));
        }
    }
    Ok(found)
}

} // verus!
