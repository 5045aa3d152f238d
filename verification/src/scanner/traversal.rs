//! A scan of directories: where it begins, what it takes in, and what it reports.
//!
//! The host looks at entries and lists directories; the scan says which, and what follows from
//! the answers. Several workers may take directories from one scan. What has been found is
//! handed on in batches, so that memory does not grow with the number of files.
use crate::cancellation;
use crate::paths;
use crate::paths::{join, starts_with};
use crate::scanner::entry;
use crate::scanner::entry::{from_metadata, issue, FileMetadata, ScannedFile};
use crate::scanner::namespace;
use crate::scanner::namespace::{
    among, descend_in_namespace, path_in_namespace, Firmlink, HostNames, PathScopes, DATA_ROOT,
    SYSTEM_VOLUMES,
};
use crate::scanner::plan;
use crate::scanner::selection;
use crate::scanner::selection::{choose_roots, normalize_scopes, normalize_scopes_until};
use crate::text;
use crate::text::{copy_texts, decoded, same_text};
use crate::text_order;
use crate::text_order::sort_distinct;
use vstd::prelude::*;

verus! {

/// So many entries make a batch.
pub const BATCH_ENTRIES: usize = 512;

/// What a scan found out about itself.
#[derive(Clone, Debug, Default)]
pub struct ScanReport {
    pub entries: u64,
    pub roots: Vec<String>,
    pub uncovered: Vec<String>,
    pub errors: Vec<String>,
    pub cancelled: bool,
    pub excluded_mounts: Vec<String>,
}

fn empty_report() -> (report: ScanReport)
    ensures
        report.entries == 0,
        text::texts(report.roots@) == Seq::<Seq<char>>::empty(),
        text::texts(report.uncovered@) == Seq::<Seq<char>>::empty(),
        text::texts(report.errors@) == Seq::<Seq<char>>::empty(),
        report.uncovered@.len() == 0,
        report.errors@.len() == 0,
        !report.cancelled,
        report.excluded_mounts@.len() == 0,
{
    let report = ScanReport {
        entries: 0,
        roots: Vec::new(),
        uncovered: Vec::new(),
        errors: Vec::new(),
        cancelled: false,
        excluded_mounts: Vec::new(),
    };
    assert(text::texts(report.roots@) =~= Seq::<Seq<char>>::empty());
    assert(text::texts(report.uncovered@) =~= Seq::<Seq<char>>::empty());
    assert(text::texts(report.errors@) =~= Seq::<Seq<char>>::empty());
    report
}

/// Directories of the host that are never indexed.
pub open spec fn never_indexed(path: Seq<char>) -> bool {
    path == "/dev"@ || path == "/Network"@ || path == "/net"@
}

pub fn excluded_namespace(path: &str) -> (excluded: bool)
    ensures
        excluded == never_indexed(path@),
{
    same_text(path, "/dev") || same_text(path, "/Network") || same_text(path, "/net")
}

/// The path lies in one of some.
pub open spec fn within(path: Seq<char>, list: Seq<Seq<char>>) -> bool {
    exists|i: int| 0 <= i < list.len() && paths::path_starts_with(path, #[trigger] list[i])
}

/// Whether the path lies in one of some.
pub fn lies_within(path: &str, list: &Vec<String>) -> (found: bool)
    ensures
        found == within(path@, text::texts(list@)),
{
    let ghost all = text::texts(list@);
    let mut next: usize = 0;
    while next < list.len()
        invariant
            next <= list@.len(),
            all == text::texts(list@),
            forall|i: int| 0 <= i < next ==> !paths::path_starts_with(path@, #[trigger] all[i]),
        decreases list@.len() - next,
    {
        assert(all[next as int] == list@[next as int]@);
        if starts_with(path, list[next].as_str()) {
            return true;
        }
        next = next + 1;
    }
    false
}

/// A root that is reached from another one: not where the way leads through the hidden
/// volumes' directory and that is not entered.
pub open spec fn reached_from(kept: Seq<char>, root: Seq<char>, roots: Seq<Seq<char>>) -> bool {
    paths::is_ancestor(kept, root) && !(paths::path_starts_with(root, SYSTEM_VOLUMES@)
        && paths::path_starts_with(SYSTEM_VOLUMES@, kept) && !namespace::descends(
        SYSTEM_VOLUMES@,
        roots,
    ))
}

/// The roots that are not reached from an earlier one.
pub open spec fn starting_points(list: Seq<Seq<char>>, roots: Seq<Seq<char>>) -> Seq<Seq<char>>
    decreases list.len(),
{
    if list.len() == 0 {
        list
    } else {
        let kept = starting_points(list.drop_last(), roots);
        if exists|i: int| 0 <= i < kept.len() && reached_from(#[trigger] kept[i], list.last(), roots) {
            kept
        } else {
            kept.push(list.last())
        }
    }
}

/// Where the directories to enumerate begin. A scan of everything enters the data volume by
/// itself.
pub open spec fn traversal_roots(
    list: Seq<Seq<char>>,
    roots: Seq<Seq<char>>,
    data_present: bool,
) -> Seq<Seq<char>> {
    starting_points(list, roots) + plan::one_if(
        DATA_ROOT@,
        list.contains("/"@) && !namespace::descends(SYSTEM_VOLUMES@, roots) && data_present,
    )
}

/// The physical names of directories that are enumerated under their names at the root.
pub open spec fn twice_named(links: Seq<Firmlink>, list: Seq<Seq<char>>) -> Seq<Seq<char>>
    decreases links.len(),
{
    if links.len() == 0 {
        Seq::empty()
    } else {
        twice_named(links.drop_last(), list) + plan::one_if(
            links.last().physical@,
            within(links.last().logical@, list) && links.last().verified,
        )
    }
}

/// What is left out of an enumeration.
pub open spec fn left_out(
    names: HostNames,
    list: Seq<Seq<char>>,
    excluded: Seq<Seq<char>>,
) -> Seq<Seq<char>> {
    selection::scopes_of(names, excluded) + twice_named(names.firmlinks@, list)
}

fn any_reached_from(kept: &Vec<String>, root: &str, configured: &[String]) -> (found: bool)
    ensures
        found == exists|i: int|
            0 <= i < kept@.len() && reached_from(
                #[trigger] text::texts(kept@)[i],
                root@,
                text::texts(configured@),
            ),
{
    let ghost (all, roots) = (text::texts(kept@), text::texts(configured@));
    let mut next: usize = 0;
    while next < kept.len()
        invariant
            next <= kept@.len(),
            all == text::texts(kept@),
            roots == text::texts(configured@),
            forall|i: int| 0 <= i < next ==> !reached_from(#[trigger] all[i], root@, roots),
        decreases kept@.len() - next,
    {
        let one = kept[next].as_str();
        assert(all[next as int] == one@);
        if paths::covers(one, root) && !(starts_with(root, SYSTEM_VOLUMES) && starts_with(
            SYSTEM_VOLUMES,
            one,
        ) && !descend_in_namespace(SYSTEM_VOLUMES, configured)) {
            return true;
        }
        next = next + 1;
    }
    false
}

/// Where an enumeration begins and what it leaves out.
pub fn enumeration_scope(
    roots: &[String],
    configured: &[String],
    excluded: &[String],
    data_present: bool,
    names: &HostNames,
) -> (scope: (Vec<String>, Vec<String>))
    ensures
        text::texts(scope.0@) == traversal_roots(
            text::texts(roots@),
            text::texts(configured@),
            data_present,
        ),
        text::texts(scope.1@) == left_out(*names, text::texts(roots@), text::texts(excluded@)),
{
    let ghost (list, chosen) = (text::texts(roots@), text::texts(configured@));
    let mut starts: Vec<String> = Vec::new();
    let mut next: usize = 0;
    assert(text::texts(starts@) =~= starting_points(list.take(0), chosen));
    while next < roots.len()
        invariant
            next <= roots@.len(),
            list == text::texts(roots@),
            chosen == text::texts(configured@),
            text::texts(starts@) == starting_points(list.take(next as int), chosen),
        decreases roots@.len() - next,
    {
        let ghost part = list.take(next + 1);
        let ghost before = text::texts(starts@);
        assert(part.drop_last() =~= list.take(next as int));
        assert(part.last() == roots@[next as int]@);
        if !any_reached_from(&starts, roots[next].as_str(), configured) {
            let copy = roots[next].clone();
            starts.push(copy);
            assert(text::texts(starts@) =~= before.push(roots@[next as int]@));
        }
        next = next + 1;
    }
    assert(list.take(next as int) =~= list);
    let ghost before = text::texts(starts@);
    if among(roots, "/") && !descend_in_namespace(SYSTEM_VOLUMES, configured) && data_present {
        starts.push(DATA_ROOT.to_owned());
        assert(text::texts(starts@) =~= before.push(DATA_ROOT@));
    }
    assert(text::texts(starts@) =~= traversal_roots(list, chosen, data_present));
    let mut out = normalize_scopes(excluded, names);
    let ghost first = text::texts(out@);
    let links = &names.firmlinks;
    let ghost roots_list = list;
    let given = copy_texts(roots);
    let mut next: usize = 0;
    assert(text::texts(out@) =~= first + twice_named(links@.take(0), list));
    while next < links.len()
        invariant
            next <= links@.len(),
            text::texts(given@) == list,
            text::texts(out@) == first + twice_named(links@.take(next as int), list),
        decreases links@.len() - next,
    {
        let ghost part = links@.take(next + 1);
        let ghost before = text::texts(out@);
        assert(part.drop_last() =~= links@.take(next as int));
        assert(part.last() == links@[next as int]);
        if lies_within(links[next].logical.as_str(), &given) && links[next].verified {
            let copy = links[next].physical.clone();
            out.push(copy);
            assert(text::texts(out@) =~= before.push(links@[next as int].physical@));
        }
        assert(text::texts(out@) =~= first + twice_named(part, list));
        next = next + 1;
    }
    assert(links@.take(next as int) =~= links@);
    (starts, out)
}

/// The scopes that were chosen and belong to the index.
pub open spec fn authorized(list: Seq<Seq<char>>, roots: Seq<Seq<char>>) -> Seq<Seq<char>>
    decreases list.len(),
{
    if list.len() == 0 {
        list
    } else {
        authorized(list.drop_last(), roots) + plan::one_if(
            list.last(),
            namespace::covered(roots, list.last()) && namespace::in_namespace(list.last(), roots),
        )
    }
}

/// The scopes that were chosen and belong to the index.
pub fn keep_authorized(list: &Vec<String>, configured: &[String]) -> (kept: Vec<String>)
    ensures
        text::texts(kept@) == authorized(text::texts(list@), text::texts(configured@)),
{
    let ghost (all, roots) = (text::texts(list@), text::texts(configured@));
    let selected = PathScopes::from_paths(configured);
    let mut kept: Vec<String> = Vec::new();
    let mut next: usize = 0;
    assert(text::texts(kept@) =~= authorized(all.take(0), roots));
    while next < list.len()
        invariant
            next <= list@.len(),
            all == text::texts(list@),
            roots == text::texts(configured@),
            forall|path: Seq<char>| #[trigger]
                namespace::covered(selected@, path) == namespace::covered(roots, path),
            text::texts(kept@) == authorized(all.take(next as int), roots),
        decreases list@.len() - next,
    {
        let ghost part = all.take(next + 1);
        let ghost before = text::texts(kept@);
        assert(part.drop_last() =~= all.take(next as int));
        assert(part.last() == list@[next as int]@);
        if selected.covers(list[next].as_str()) && path_in_namespace(
            list[next].as_str(),
            configured,
        ) {
            let copy = list[next].clone();
            kept.push(copy);
            assert(text::texts(kept@) =~= before.push(list@[next as int]@));
        }
        assert(text::texts(kept@) =~= authorized(part, roots));
        next = next + 1;
    }
    assert(all.take(next as int) =~= all);
    kept
}

/// The starting points that belong to the index, are on a mount that is indexed, and are not
/// left out.
pub open spec fn entered(
    starts: Seq<Seq<char>>,
    roots: Seq<Seq<char>>,
    out: Seq<Seq<char>>,
    allowed: spec_fn(Seq<char>) -> bool,
) -> Seq<Seq<char>>
    decreases starts.len(),
{
    if starts.len() == 0 {
        starts
    } else {
        let one = starts.last();
        entered(starts.drop_last(), roots, out, allowed) + plan::one_if(
            one,
            namespace::in_namespace(one, roots) && allowed(one) && !within(one, out),
        )
    }
}

fn keep_entered<A: Fn(&str) -> bool>(
    starts: &Vec<String>,
    configured: &[String],
    out: &Vec<String>,
    allows: &A,
) -> (kept: Vec<String>)
    requires
        forall|p: &str| #[trigger] call_requires(*allows, (p,)),
    ensures
        forall|a: spec_fn(Seq<char>) -> bool| #[trigger]
            selection::agrees(*allows, a) ==> text::texts(kept@) == entered(
                text::texts(starts@),
                text::texts(configured@),
                text::texts(out@),
                a,
            ),
        starts@.len() == 0 ==> kept@.len() == 0,
{
    let ghost (all, roots, omitted) = (
        text::texts(starts@),
        text::texts(configured@),
        text::texts(out@),
    );
    let mut kept: Vec<String> = Vec::new();
    let mut next: usize = 0;
    proof {
        assert forall|a: spec_fn(Seq<char>) -> bool| #[trigger]
            selection::agrees(*allows, a) implies text::texts(kept@) == entered(
            all.take(0),
            roots,
            omitted,
            a,
        ) by {
            assert(text::texts(kept@) =~= entered(all.take(0), roots, omitted, a));
        }
    }
    while next < starts.len()
        invariant
            next <= starts@.len(),
            all == text::texts(starts@),
            roots == text::texts(configured@),
            omitted == text::texts(out@),
            forall|p: &str| #[trigger] call_requires(*allows, (p,)),
            forall|a: spec_fn(Seq<char>) -> bool| #[trigger]
                selection::agrees(*allows, a) ==> text::texts(kept@) == entered(
                    all.take(next as int),
                    roots,
                    omitted,
                    a,
                ),
            next == 0 ==> kept@.len() == 0,
        decreases starts@.len() - next,
    {
        let ghost part = all.take(next + 1);
        let ghost before = text::texts(kept@);
        assert(part.drop_last() =~= all.take(next as int));
        assert(part.last() == starts@[next as int]@);
        let one = starts[next].as_str();
        if path_in_namespace(one, configured) && allows(one) && !lies_within(one, out) {
            kept.push(one.to_owned());
            assert(text::texts(kept@) =~= before.push(one@));
        }
        proof {
            assert forall|a: spec_fn(Seq<char>) -> bool| #[trigger]
                selection::agrees(*allows, a) implies text::texts(kept@) == entered(
                part,
                roots,
                omitted,
                a,
            ) by {
                assert(text::texts(kept@) =~= entered(part, roots, omitted, a));
            }
        }
        next = next + 1;
    }
    assert(all.take(next as int) =~= all);
    kept
}

/// A scan of directories that is under way.
pub struct Scan {
    /// The roots of the index.
    pub configured: Vec<String>,
    /// Paths that are not entered.
    pub excluded: Vec<String>,
    /// Entries to look at before any directory is listed.
    pub starts: Vec<String>,
    /// Directories to list.
    pub directories: Vec<String>,
    /// Directories to list and being listed.
    pub outstanding: usize,
    /// Entries that no batch holds yet.
    pub pending: Vec<ScannedFile>,
    pub report: ScanReport,
}

/// What a worker does next.
pub enum NextDirectory {
    List(String),
    Wait,
    Finished,
}

impl Scan {
    /// No directory waits that is not outstanding.
    pub open spec fn wf(&self) -> bool {
        self.directories@.len() <= self.outstanding
    }

    /// A scan that has nothing to do.
    fn over(report: ScanReport) -> (scan: Self)
        ensures
            scan.wf(),
            scan.report == report,
            scan.starts@.len() == 0,
            scan.directories@.len() == 0,
            scan.outstanding == 0,
            scan.pending@.len() == 0,
    {
        Scan {
            configured: Vec::new(),
            excluded: Vec::new(),
            starts: Vec::new(),
            directories: Vec::new(),
            outstanding: 0,
            pending: Vec::new(),
            report,
        }
    }

    /// Nothing was found or queued yet.
    pub open spec fn fresh(&self) -> bool {
        &&& self.wf()
        &&& self.directories@.len() == 0
        &&& self.outstanding == 0
        &&& self.pending@.len() == 0
        &&& self.report.entries == 0
    }
}

/// A scan that begins with some scopes in the namespace of configured roots.
pub open spec fn begun(
    scan: Scan,
    names: HostNames,
    roots: Seq<Seq<char>>,
    configured: Seq<Seq<char>>,
    excluded: Seq<Seq<char>>,
    data_present: bool,
    allowed: spec_fn(Seq<char>) -> bool,
) -> bool {
    let chosen = selection::scopes_of(names, configured);
    let list = authorized(selection::scopes_of(names, roots), chosen);
    &&& text::texts(scan.configured@) == chosen
    &&& text::texts(scan.report.roots@) == list
    &&& text::texts(scan.excluded@) == left_out(names, list, excluded)
    &&& text::texts(scan.starts@) == entered(
        traversal_roots(list, chosen, data_present),
        chosen,
        left_out(names, list, excluded),
        allowed,
    )
    &&& !scan.report.cancelled
}

/// A scan that was cancelled before it began.
pub open spec fn not_begun(scan: Scan, roots: Seq<Seq<char>>) -> bool {
    &&& scan.report.cancelled
    &&& text::texts(scan.report.roots@) == roots
    &&& scan.starts@.len() == 0
    &&& scan.report.uncovered@.len() == 0
    &&& scan.report.errors@.len() == 0
    &&& scan.report.excluded_mounts@.len() == 0
}

/// Where the directories to enumerate begin for some scopes in the namespace of configured roots.
pub open spec fn enumerated(
    names: HostNames,
    roots: Seq<Seq<char>>,
    configured: Seq<Seq<char>>,
    data_present: bool,
) -> Seq<Seq<char>> {
    let chosen = selection::scopes_of(names, configured);
    traversal_roots(authorized(selection::scopes_of(names, roots), chosen), chosen, data_present)
}

/// The host was asked for the mounts within some paths that are not indexed, and answered so.
pub open spec fn mounts_within<M: Fn(&[String]) -> Vec<String>>(
    excluded_within: M,
    list: Seq<Seq<char>>,
    answer: Vec<String>,
) -> bool {
    exists|asked: &[String]| #[trigger]
        call_ensures(excluded_within, (asked,), answer) && text::texts(asked@) == list
}

/// A scan that cannot begin because the mounts could not be inspected.
pub open spec fn unmounted(scan: Scan, roots: Seq<Seq<char>>, error: Seq<char>) -> bool {
    &&& scan.starts@.len() == 0
    &&& !scan.report.cancelled
    &&& text::texts(scan.report.roots@) == roots
    &&& text::texts(scan.report.uncovered@) == roots
    &&& text::texts(scan.report.errors@) == seq![
        "Could not inspect mounted filesystems: "@ + error,
    ]
    &&& scan.report.excluded_mounts@.len() == 0
}

fn scan_excluding_with_scope<
    A: Fn(&str) -> bool,
    M: Fn(&[String]) -> Vec<String>,
    C: Fn() -> bool,
>(
    roots: &[String],
    configured: &[String],
    excluded: &[String],
    data_present: bool,
    names: &HostNames,
    allows: A,
    excluded_within: M,
    cancelled: C,
) -> (scan: Scan)
    requires
        forall|p: &str| #[trigger] call_requires(allows, (p,)),
        forall|p: &[String]| #[trigger] call_requires(excluded_within, (p,)),
        call_requires(cancelled, ()),
    ensures
        scan.fresh(),
        text::texts(scan.report.uncovered@) == Seq::<Seq<char>>::empty(),
        text::texts(scan.report.errors@) == Seq::<Seq<char>>::empty(),
        scan.report.cancelled ==> call_ensures(cancelled, (), true) && not_begun(
            scan,
            text::texts(roots@),
        ),
        !scan.report.cancelled ==> !cancellation::always(cancelled) && mounts_within(
            excluded_within,
            enumerated(*names, text::texts(roots@), text::texts(configured@), data_present),
            scan.report.excluded_mounts,
        ),
        !scan.report.cancelled ==> forall|a: spec_fn(Seq<char>) -> bool| #[trigger]
            selection::agrees(allows, a) ==> begun(
                scan,
                *names,
                text::texts(roots@),
                text::texts(configured@),
                text::texts(excluded@),
                data_present,
                a,
            ),
{
    let mut report = empty_report();
    let scopes = match normalize_scopes_until(roots, names, cancelled) {
        Some(scopes) => scopes,
        None => {
            report.roots = copy_texts(roots);
            report.cancelled = true;
            return Scan::over(report);
        },
    };
    let configured = normalize_scopes(configured, names);
    let list = keep_authorized(&scopes, configured.as_slice());
    let (points, out) = enumeration_scope(
        list.as_slice(),
        configured.as_slice(),
        excluded,
        data_present,
        names,
    );
    report.excluded_mounts = excluded_within(points.as_slice());
    assert(mounts_within(excluded_within, text::texts(points@), report.excluded_mounts));
    let starts = keep_entered(&points, configured.as_slice(), &out, &allows);
    report.roots = list;
    Scan {
        configured,
        excluded: out,
        starts,
        directories: Vec::new(),
        outstanding: 0,
        pending: Vec::new(),
        report,
    }
}

/// Begin a scan of scopes that events or recovery named. What may be indexed stays bound to the
/// configured roots. `mounts` tells whether the mounted filesystems could be inspected, `allows`
/// whether a path is on one that is indexed, and `excluded_within` gives the mounts within some
/// paths that are not.
pub fn scan_excluding_in_namespace<
    A: Fn(&str) -> bool,
    M: Fn(&[String]) -> Vec<String>,
    C: Fn() -> bool,
>(
    roots: &[String],
    configured: &[String],
    excluded: &[String],
    data_present: bool,
    names: &HostNames,
    mounts: Result<(), String>,
    allows: A,
    excluded_within: M,
    cancelled: C,
) -> (scan: Scan)
    requires
        forall|p: &str| #[trigger] call_requires(allows, (p,)),
        forall|p: &[String]| #[trigger] call_requires(excluded_within, (p,)),
        call_requires(cancelled, ()),
    ensures
        scan.fresh(),
        match mounts {
            Err(error) => unmounted(scan, text::texts(roots@), error@),
            Ok(_) => {
                &&& text::texts(scan.report.uncovered@) == Seq::<Seq<char>>::empty()
                &&& text::texts(scan.report.errors@) == Seq::<Seq<char>>::empty()
                &&& scan.report.cancelled ==> call_ensures(cancelled, (), true) && not_begun(
                    scan,
                    text::texts(roots@),
                )
                &&& !scan.report.cancelled ==> !cancellation::always(cancelled) && mounts_within(
                    excluded_within,
                    enumerated(*names, text::texts(roots@), text::texts(configured@), data_present),
                    scan.report.excluded_mounts,
                )
                &&& !scan.report.cancelled ==> forall|a: spec_fn(Seq<char>) -> bool| #[trigger]
                    selection::agrees(allows, a) ==> begun(
                        scan,
                        *names,
                        text::texts(roots@),
                        text::texts(configured@),
                        text::texts(excluded@),
                        data_present,
                        a,
                    )
            },
        },
{
    match mounts {
        Err(error) => {
            let mut report = empty_report();
            report.roots = copy_texts(roots);
            report.uncovered = copy_texts(roots);
            let line = text::joined("Could not inspect mounted filesystems: ", error.as_str());
            report.errors = vec![line];
            assert(text::texts(report.errors@) =~= seq![line@]);
            Scan::over(report)
        },
        Ok(_) => scan_excluding_with_scope(
            roots,
            configured,
            excluded,
            data_present,
            names,
            allows,
            excluded_within,
            cancelled,
        ),
    }
}

/// What a scan is bound to: the roots that it was given, what it leaves out, and where it begins.
pub open spec fn same_scope(a: Scan, b: Scan) -> bool {
    &&& a.configured == b.configured
    &&& a.excluded == b.excluded
    &&& a.starts == b.starts
    &&& a.report.roots == b.report.roots
    &&& a.report.cancelled == b.report.cancelled
    &&& a.report.excluded_mounts == b.report.excluded_mounts
}

/// A step of a scan: it takes in some entries and hands on some, in their order, and keeps the
/// rest. What it takes in is counted.
pub open spec fn hands_on(
    before: Scan,
    after: Scan,
    taken: Seq<ScannedFile>,
    handed: Seq<ScannedFile>,
) -> bool {
    &&& same_scope(before, after)
    &&& handed + after.pending@ == before.pending@ + taken
    &&& after.report.entries == before.report.entries + taken.len()
}

/// What a step hands on; there are no empty batches.
pub open spec fn handed(batch: Option<Vec<ScannedFile>>) -> Seq<ScannedFile> {
    match batch {
        Some(entries) => entries@,
        None => Seq::empty(),
    }
}

impl Scan {
    /// Take in what the host says of a starting point.
    pub fn start_seen(&mut self, root: &str, observed: Result<FileMetadata, String>)
        requires
            old(self).directories@.len() < usize::MAX,
            old(self).outstanding == old(self).directories@.len(),
        ensures
            final(self).outstanding == final(self).directories@.len(),
            same_scope(*old(self), *final(self)),
            final(self).report.entries == old(self).report.entries,
            match observed {
                Ok(metadata) => {
                    let found = entry::entry_of(root@, metadata);
                    &&& entry::entry_views(final(self).pending@) == entry::entry_views(
                        old(self).pending@,
                    ).push(found)
                    &&& text::texts(final(self).directories@) == text::texts(
                        old(self).directories@,
                    ) + plan::one_if(
                        root@,
                        listed(found, text::texts(old(self).configured@)),
                    )
                    &&& final(self).report.uncovered == old(self).report.uncovered
                    &&& final(self).report.errors == old(self).report.errors
                },
                Err(error) => {
                    &&& final(self).pending == old(self).pending
                    &&& final(self).directories == old(self).directories
                    &&& text::texts(final(self).report.uncovered@) == text::texts(
                        old(self).report.uncovered@,
                    ).push(root@)
                    &&& text::texts(final(self).report.errors@) == text::texts(
                        old(self).report.errors@,
                    ).push(error@)
                },
            },
    {
        match observed {
            Ok(metadata) => {
                let found = from_metadata(root.to_owned(), &metadata);
                let ghost dirs = text::texts(self.directories@);
                let ghost some = entry::entry_views(self.pending@);
                if found.is_dir && !found.is_symlink && descend_in_namespace(
                    root,
                    self.configured.as_slice(),
                ) {
                    self.directories.push(root.to_owned());
                    self.outstanding = self.outstanding + 1;
                    assert(text::texts(self.directories@) =~= dirs.push(root@));
                }
                assert(text::texts(self.directories@) =~= dirs + plan::one_if(
                    root@,
                    listed(found@, text::texts(self.configured@)),
                ));
                self.pending.push(found);
                assert(entry::entry_views(self.pending@) =~= some.push(found@));
            },
            Err(error) => {
                let ghost gaps = text::texts(self.report.uncovered@);
                let ghost lines = text::texts(self.report.errors@);
                self.report.uncovered.push(root.to_owned());
                self.report.errors.push(error);
                assert(text::texts(self.report.uncovered@) =~= gaps.push(root@));
                assert(text::texts(self.report.errors@) =~= lines.push(error@));
            },
        }
    }

    /// Take in what the host says of a single entry, and hand on a batch that is full.
    pub fn metadata_seen(&mut self, path: &str, observed: Result<FileMetadata, String>) -> (batch:
        Option<Vec<ScannedFile>>)
        requires
            old(self).report.entries < u64::MAX,
            old(self).pending@.len() < BATCH_ENTRIES,
        ensures
            same_scope(*old(self), *final(self)),
            final(self).directories == old(self).directories,
            final(self).outstanding == old(self).outstanding,
            final(self).pending@.len() < BATCH_ENTRIES,
            match observed {
                Ok(metadata) => {
                    let all = entry::entry_views(old(self).pending@).push(
                        entry::entry_of(path@, metadata),
                    );
                    &&& final(self).report.entries == old(self).report.entries + 1
                    &&& final(self).report.uncovered == old(self).report.uncovered
                    &&& final(self).report.errors == old(self).report.errors
                    &&& match batch {
                        Some(full) => full@.len() == BATCH_ENTRIES && entry::entry_views(full@)
                            == all && final(self).pending@.len() == 0,
                        None => entry::entry_views(final(self).pending@) == all,
                    }
                },
                Err(error) => {
                    &&& batch is None
                    &&& final(self).pending == old(self).pending
                    &&& final(self).report.entries == old(self).report.entries
                    &&& text::texts(final(self).report.uncovered@) == text::texts(
                        old(self).report.uncovered@,
                    ).push(path@)
                    &&& text::texts(final(self).report.errors@) == text::texts(
                        old(self).report.errors@,
                    ).push(entry::issue_text(path@, error@))
                },
            },
    {
        match observed {
            Ok(metadata) => {
                let ghost some = entry::entry_views(self.pending@);
                let found = from_metadata(path.to_owned(), &metadata);
                self.report.entries = self.report.entries + 1;
                self.pending.push(found);
                assert(entry::entry_views(self.pending@) =~= some.push(found@));
                if self.pending.len() >= BATCH_ENTRIES {
                    return self.flush();
                }
                None
            },
            Err(error) => {
                self.issue_seen(path, error.as_str());
                None
            },
        }
    }

    /// Hand on the entries of the starting points, if there are any.
    pub fn first_batch(&mut self) -> (batch: Option<Vec<ScannedFile>>)
        requires
            old(self).report.entries + old(self).pending@.len() <= u64::MAX,
        ensures
            match batch {
                Some(entries) => entries@.len() > 0 && entries@ == old(self).pending@,
                None => old(self).pending@.len() == 0,
            },
            same_scope(*old(self), *final(self)),
            final(self).pending@.len() == 0,
            final(self).report.entries == old(self).report.entries + old(self).pending@.len(),
            final(self).report.uncovered == old(self).report.uncovered,
            final(self).report.errors == old(self).report.errors,
            final(self).directories == old(self).directories,
            final(self).outstanding == old(self).outstanding,
    {
        self.report.entries = self.report.entries + self.pending.len() as u64;
        self.flush()
    }

    /// What the next worker does. A directory is taken from those that came last.
    pub fn next_directory(&mut self, cancelled: bool) -> (next: NextDirectory)
        requires
            old(self).wf(),
        ensures
            final(self).wf(),
            hands_on(*old(self), *final(self), Seq::empty(), Seq::empty()),
            final(self).outstanding == old(self).outstanding,
            final(self).report == old(self).report,
            final(self).pending == old(self).pending,
            match next {
                NextDirectory::Finished => (cancelled || old(self).outstanding == 0) && *final(self)
                    == *old(self),
                NextDirectory::Wait => !cancelled && old(self).outstanding > 0 && old(
                    self,
                ).directories@.len() == 0 && final(self).directories@.len() == 0,
                NextDirectory::List(path) => !cancelled && old(self).directories@.len() > 0
                    && path == old(self).directories@.last() && final(self).directories@ == old(
                    self,
                ).directories@.drop_last(),
            },
    {
        if cancelled || self.outstanding == 0 {
            return NextDirectory::Finished;
        }
        match self.directories.pop() {
            Some(path) => NextDirectory::List(path),
            None => NextDirectory::Wait,
        }
    }

    /// A worker is done with a directory and hands over those in it.
    pub fn finish_directory(&mut self, children: Vec<String>)
        requires
            old(self).directories@.len() < old(self).outstanding,
            old(self).outstanding + children@.len() <= usize::MAX,
        ensures
            final(self).wf(),
            hands_on(*old(self), *final(self), Seq::empty(), Seq::empty()),
            final(self).outstanding == old(self).outstanding - 1 + children@.len(),
            final(self).directories@ == old(self).directories@ + children@,
            final(self).report == old(self).report,
            final(self).pending == old(self).pending,
    {
        let count = children.len();
        let mut more = children;
        self.outstanding = self.outstanding - 1 + count;
        self.directories.append(&mut more);
    }

    /// Take in entries, and hand on those that fill batches.
    pub fn receive(&mut self, entries: Vec<ScannedFile>) -> (batches: Vec<Vec<ScannedFile>>)
        requires
            old(self).report.entries + entries@.len() <= u64::MAX,
            old(self).pending@.len() < BATCH_ENTRIES,
        ensures
            final(self).report.entries == old(self).report.entries + entries@.len(),
            final(self).report.uncovered == old(self).report.uncovered,
            final(self).report.errors == old(self).report.errors,
            final(self).directories == old(self).directories,
            final(self).outstanding == old(self).outstanding,
            final(self).pending@.len() < BATCH_ENTRIES,
            hands_on(*old(self), *final(self), entries@, flat(batches@)),
            flat(batches@) + final(self).pending@ == old(self).pending@ + entries@,
            forall|i: int|
                0 <= i < batches@.len() ==> (#[trigger] batches@[i])@.len() == BATCH_ENTRIES,
    {
        let ghost all = self.pending@ + entries@;
        let mut batches: Vec<Vec<ScannedFile>> = Vec::new();
        let mut more = entries;
        self.report.entries = self.report.entries + more.len() as u64;
        let mut rest: Vec<ScannedFile> = Vec::new();
        std::mem::swap(&mut rest, &mut self.pending);
        rest.append(&mut more);
        assert(flat(batches@) + rest@ =~= all);
        while rest.len() >= BATCH_ENTRIES
            invariant
                flat(batches@) + rest@ == all,
                forall|i: int|
                    0 <= i < batches@.len() ==> (#[trigger] batches@[i])@.len() == BATCH_ENTRIES,
            decreases rest@.len(),
        {
            let ghost (before, whole) = (batches@, rest@);
            let tail = rest.split_off(BATCH_ENTRIES);
            batches.push(rest);
            proof {
                lemma_flat(before, rest);
                assert(flat(batches@) + tail@ =~= flat(before) + whole);
            }
            rest = tail;
        }
        self.pending = rest;
        batches
    }

    /// Hand on what fills no batch, if there is any.
    pub fn flush(&mut self) -> (batch: Option<Vec<ScannedFile>>)
        ensures
            match batch {
                Some(entries) => entries@.len() > 0 && entries@ == old(self).pending@,
                None => old(self).pending@.len() == 0,
            },
            hands_on(*old(self), *final(self), Seq::empty(), handed(batch)),
            final(self).pending@.len() == 0,
            final(self).report == old(self).report,
            final(self).directories == old(self).directories,
            final(self).outstanding == old(self).outstanding,
    {
        if self.pending.len() == 0 {
            return None;
        }
        let mut batch: Vec<ScannedFile> = Vec::new();
        std::mem::swap(&mut batch, &mut self.pending);
        Some(batch)
    }

    /// A path could not be read.
    pub fn issue_seen(&mut self, path: &str, error: &str)
        ensures
            text::texts(final(self).report.uncovered@) == text::texts(
                old(self).report.uncovered@,
            ).push(path@),
            text::texts(final(self).report.errors@) == text::texts(old(self).report.errors@).push(
                entry::issue_text(path@, error@),
            ),
            hands_on(*old(self), *final(self), Seq::empty(), Seq::empty()),
            final(self).pending == old(self).pending,
            final(self).directories == old(self).directories,
            final(self).outstanding == old(self).outstanding,
    {
        let ghost gaps = text::texts(self.report.uncovered@);
        let ghost lines = text::texts(self.report.errors@);
        self.report.uncovered.push(path.to_owned());
        let line = issue(path, error);
        self.report.errors.push(line);
        assert(text::texts(self.report.uncovered@) =~= gaps.push(path@));
        assert(text::texts(self.report.errors@) =~= lines.push(line@));
    }

    /// A listing ended with an error code of the host, or with 0. That it was given up because
    /// the scan was cancelled is no problem of the directory.
    pub fn listing_ended(&mut self, path: &str, code: i32, error: &str)
        ensures
            hands_on(*old(self), *final(self), Seq::empty(), Seq::empty()),
            final(self).pending == old(self).pending,
            final(self).directories == old(self).directories,
            final(self).outstanding == old(self).outstanding,
            if code == 0 || code == LISTING_CANCELLED {
                *final(self) == *old(self)
            } else {
                &&& text::texts(final(self).report.uncovered@) == text::texts(
                    old(self).report.uncovered@,
                ).push(path@)
                &&& text::texts(final(self).report.errors@) == text::texts(
                    old(self).report.errors@,
                ).push(entry::issue_text(path@, error@))
            },
    {
        if code != 0 && code != LISTING_CANCELLED {
            self.issue_seen(path, error);
        }
    }

    /// The report of a scan that is over.
    pub fn finish(self, cancelled: bool) -> (report: ScanReport)
        ensures
            report.entries == self.report.entries,
            report.roots == self.report.roots,
            report.errors == self.report.errors,
            report.excluded_mounts == self.report.excluded_mounts,
            report.cancelled == cancelled,
            text::texts(report.uncovered@) == text_order::sorted_distinct(
                text::texts(self.report.uncovered@),
            ),
    {
        let ScanReport { entries, roots, uncovered, errors, excluded_mounts, .. } = self.report;
        let uncovered = sort_distinct(uncovered);
        ScanReport { entries, roots, uncovered, errors, cancelled, excluded_mounts }
    }
}

/// The entries of some batches.
pub open spec fn flat(batches: Seq<Vec<ScannedFile>>) -> Seq<ScannedFile>
    decreases batches.len(),
{
    if batches.len() == 0 {
        Seq::empty()
    } else {
        flat(batches.drop_last()) + batches.last()@
    }
}

proof fn lemma_flat(batches: Seq<Vec<ScannedFile>>, batch: Vec<ScannedFile>)
    ensures
        flat(batches.push(batch)) == flat(batches) + batch@,
{
    assert(batches.push(batch).drop_last() =~= batches);
}

/// A directory whose contents are scanned.
pub open spec fn listed(found: entry::EntryView, configured: Seq<Seq<char>>) -> bool {
    found.is_dir && !found.is_symlink && namespace::descends(found.path, configured)
}

/// A directory that is being listed.
pub struct Listing {
    pub directory: String,
    pub entries: Vec<ScannedFile>,
    pub children: Vec<String>,
}

/// What a worker does with a listed entry.
pub enum Collected {
    /// Go on.
    Continue,
    /// Hand on these entries.
    Batch(Vec<ScannedFile>),
    /// Report a path with an error code.
    Issue(String, i32),
    /// Stop.
    Stop,
}

/// The error code of a listing that was given up.
pub const LISTING_CANCELLED: i32 = 89;

/// The error code of a name that is no text.
pub const ILLEGAL_BYTE_SEQUENCE: i32 = 84;

/// The path of an entry is not taken in.
pub open spec fn skipped(
    path: Seq<char>,
    configured: Seq<Seq<char>>,
    excluded: Seq<Seq<char>>,
) -> bool {
    never_indexed(path) || !namespace::in_namespace(path, configured) || within(path, excluded)
}

/// An entry of the directory was taken in, or is reported or passed over.
pub open spec fn collects(
    before: Listing,
    after: Listing,
    step: Collected,
    name: Seq<char>,
    metadata: FileMetadata,
    configured: Seq<Seq<char>>,
    excluded: Seq<Seq<char>>,
) -> bool {
    let path = paths::path_join(before.directory@, name);
    let found = entry::entry_of(path, metadata);
    if skipped(path, configured, excluded) {
        step is Continue && after == before
    } else if metadata.error is Some {
        after == before && (step matches Collected::Issue(at, code) && at@ == path && Some(code)
            == metadata.error)
    } else {
        &&& after.directory == before.directory
        &&& text::texts(after.children@) == text::texts(before.children@) + plan::one_if(
            path,
            listed(found, configured),
        )
        &&& match step {
            Collected::Batch(batch) => after.entries@.len() == 0 && batch@.len() == BATCH_ENTRIES
                && entry::entry_views(batch@) == entry::entry_views(before.entries@).push(found),
            Collected::Continue => entry::entry_views(after.entries@) == entry::entry_views(
                before.entries@,
            ).push(found),
            _ => false,
        }
    }
}

impl Listing {
    pub fn of(directory: &str) -> (listing: Self)
        ensures
            listing.directory@ == directory@,
            listing.entries@.len() == 0,
            listing.children@.len() == 0,
    {
        Listing { directory: directory.to_owned(), entries: Vec::new(), children: Vec::new() }
    }

    /// Take in one entry of the directory.
    pub fn collect_entry(
        &mut self,
        name_bytes: &[u8],
        metadata: &FileMetadata,
        configured: &[String],
        excluded: &Vec<String>,
        cancelled: bool,
    ) -> (step: Collected)
        requires
            old(self).entries@.len() < BATCH_ENTRIES,
        ensures
            final(self).directory == old(self).directory,
            final(self).entries@.len() < BATCH_ENTRIES,
            cancelled ==> step is Stop && *final(self) == *old(self),
            !cancelled && !vstd::utf8::valid_utf8(name_bytes@) ==> *final(self) == *old(self) && (
            step matches Collected::Issue(path, code) && path@ == old(self).directory@
                + "/<non-UTF8 directory entry>"@ && code == ILLEGAL_BYTE_SEQUENCE),
            !cancelled ==> forall|name: Seq<char>| #[trigger]
                text::bytes_of(name) == name_bytes@ ==> collects(
                    *old(self),
                    *final(self),
                    step,
                    name,
                    *metadata,
                    text::texts(configured@),
                    text::texts(excluded@),
                ),
    {
        if cancelled {
            return Collected::Stop;
        }
        let name = match decoded(name_bytes) {
            Some(name) => name,
            None => {
                let path = text::joined(self.directory.as_str(), "/<non-UTF8 directory entry>");
                proof {
                    assert forall|name: Seq<char>| #[trigger]
                        text::bytes_of(name) == name_bytes@ implies false by {
                        vstd::utf8::encode_utf8_valid_utf8(name);
                    }
                }
                return Collected::Issue(path, ILLEGAL_BYTE_SEQUENCE);
            },
        };
        proof {
            vstd::utf8::encode_utf8_valid_utf8(name@);
            assert forall|other: Seq<char>| #[trigger]
                text::bytes_of(other) == name_bytes@ implies other == name@ by {
                text::lemma_same_bytes(other, name@);
            }
        }
        let path = join(self.directory.as_str(), name.as_str());
        if excluded_namespace(path.as_str()) || !path_in_namespace(path.as_str(), configured)
            || lies_within(path.as_str(), excluded) {
            return Collected::Continue;
        }
        if let Some(code) = metadata.error {
            return Collected::Issue(path, code);
        }
        let ghost dirs = text::texts(self.children@);
        let ghost some = entry::entry_views(self.entries@);
        let found = from_metadata(path.clone(), metadata);
        if found.is_dir && !found.is_symlink && descend_in_namespace(path.as_str(), configured) {
            self.children.push(path);
            assert(text::texts(self.children@) =~= dirs.push(path@));
        }
        assert(text::texts(self.children@) =~= dirs + plan::one_if(
            path@,
            listed(found@, text::texts(configured@)),
        ));
        self.entries.push(found);
        assert(entry::entry_views(self.entries@) =~= some.push(found@));
        if self.entries.len() >= BATCH_ENTRIES {
            let mut batch: Vec<ScannedFile> = Vec::new();
            std::mem::swap(&mut batch, &mut self.entries);
            return Collected::Batch(batch);
        }
        Collected::Continue
    }
}

/// Begin a scan of newly chosen roots. Application-owned directories are left out before they
/// are enumerated: leaving out their entries alone would still react to our own writes.
pub fn scan_excluding<
    A: Fn(&str) -> bool,
    M: Fn(&[String]) -> Vec<String>,
    S: Fn(&str) -> bool,
    R: Fn(&str) -> Option<String>,
    C: Fn() -> bool,
>(
    roots: &[String],
    excluded: &[String],
    data_present: bool,
    names: &HostNames,
    mounts: Result<(), String>,
    allows: A,
    excluded_within: M,
    is_link: S,
    find: R,
    cancelled: C,
) -> (scan: Scan)
    requires
        forall|p: &str| #[trigger] call_requires(allows, (p,)),
        forall|p: &[String]| #[trigger] call_requires(excluded_within, (p,)),
        forall|p: &str| #[trigger] call_requires(is_link, (p,)),
        forall|p: &str| #[trigger] call_requires(find, (p,)),
        call_requires(cancelled, ()),
    ensures
        scan.fresh(),
        scan.report.cancelled ==> call_ensures(cancelled, (), true) && (not_begun(
            scan,
            text::texts(roots@),
        ) || !cancellation::always(cancelled) && forall|
            a: spec_fn(Seq<char>) -> bool,
            s: spec_fn(Seq<char>) -> bool,
            f: spec_fn(Seq<char>) -> Option<Seq<char>>,
        | #[trigger]
            selection::agrees(allows, a) && #[trigger] selection::agrees(is_link, s)
                && #[trigger] selection::resolves(find, f) ==> not_begun(
                scan,
                selection::roots_of(*names, text::texts(roots@), a, s, f),
            )),
        cancellation::always(cancelled) ==> scan.report.cancelled,
        !scan.report.cancelled ==> forall|
            a: spec_fn(Seq<char>) -> bool,
            s: spec_fn(Seq<char>) -> bool,
            f: spec_fn(Seq<char>) -> Option<Seq<char>>,
        | #[trigger]
            selection::agrees(allows, a) && #[trigger] selection::agrees(is_link, s)
                && #[trigger] selection::resolves(find, f) ==> {
                let list = selection::roots_of(*names, text::texts(roots@), a, s, f);
                match mounts {
                    Ok(_) => {
                        &&& begun(scan, *names, list, list, text::texts(excluded@), data_present, a)
                        &&& text::texts(scan.report.uncovered@) == Seq::<Seq<char>>::empty()
                        &&& text::texts(scan.report.errors@) == Seq::<Seq<char>>::empty()
                        &&& mounts_within(
                            excluded_within,
                            enumerated(*names, list, list, data_present),
                            scan.report.excluded_mounts,
                        )
                    },
                    Err(error) => unmounted(scan, list, error@),
                }
            },
{
    match choose_roots(roots, names, &allows, &is_link, &find, &cancelled) {
        Some(list) => scan_excluding_in_namespace(
            list.as_slice(),
            list.as_slice(),
            excluded,
            data_present,
            names,
            mounts,
            allows,
            excluded_within,
            cancelled,
        ),
        None => {
            let mut report = empty_report();
            report.roots = copy_texts(roots);
            report.cancelled = true;
            Scan::over(report)
        },
    }
}

/// Begin a scan of newly chosen roots, which are included themselves. No roots, no scan.
pub fn scan<
    A: Fn(&str) -> bool,
    M: Fn(&[String]) -> Vec<String>,
    S: Fn(&str) -> bool,
    R: Fn(&str) -> Option<String>,
    C: Fn() -> bool,
>(
    roots: &[String],
    data_present: bool,
    names: &HostNames,
    mounts: Result<(), String>,
    allows: A,
    excluded_within: M,
    is_link: S,
    find: R,
    cancelled: C,
) -> (scan: Scan)
    requires
        forall|p: &str| #[trigger] call_requires(allows, (p,)),
        forall|p: &[String]| #[trigger] call_requires(excluded_within, (p,)),
        forall|p: &str| #[trigger] call_requires(is_link, (p,)),
        forall|p: &str| #[trigger] call_requires(find, (p,)),
        call_requires(cancelled, ()),
    ensures
        scan.fresh(),
        scan.report.cancelled ==> call_ensures(cancelled, (), true) && (not_begun(
            scan,
            text::texts(roots@),
        ) || !cancellation::always(cancelled) && forall|
            a: spec_fn(Seq<char>) -> bool,
            s: spec_fn(Seq<char>) -> bool,
            f: spec_fn(Seq<char>) -> Option<Seq<char>>,
        | #[trigger]
            selection::agrees(allows, a) && #[trigger] selection::agrees(is_link, s)
                && #[trigger] selection::resolves(find, f) ==> not_begun(
                scan,
                selection::roots_of(*names, text::texts(roots@), a, s, f),
            )),
        cancellation::always(cancelled) ==> scan.report.cancelled,
        !scan.report.cancelled ==> forall|
            a: spec_fn(Seq<char>) -> bool,
            s: spec_fn(Seq<char>) -> bool,
            f: spec_fn(Seq<char>) -> Option<Seq<char>>,
        | #[trigger]
            selection::agrees(allows, a) && #[trigger] selection::agrees(is_link, s)
                && #[trigger] selection::resolves(find, f) ==> {
                let list = selection::roots_of(*names, text::texts(roots@), a, s, f);
                match mounts {
                    Ok(_) => {
                        &&& begun(scan, *names, list, list, Seq::empty(), data_present, a)
                        &&& text::texts(scan.report.uncovered@) == Seq::<Seq<char>>::empty()
                        &&& text::texts(scan.report.errors@) == Seq::<Seq<char>>::empty()
                        &&& mounts_within(
                            excluded_within,
                            enumerated(*names, list, list, data_present),
                            scan.report.excluded_mounts,
                        )
                    },
                    Err(error) => unmounted(scan, list, error@),
                }
            },
{
    let nothing: Vec<String> = Vec::new();
    assert(text::texts(nothing@) =~= Seq::<Seq<char>>::empty());
    scan_excluding(
        roots,
        nothing.as_slice(),
        data_present,
        names,
        mounts,
        allows,
        excluded_within,
        is_link,
        find,
        cancelled,
    )
}

/// The paths on mounts that are indexed.
pub open spec fn allowed_paths(
    list: Seq<Seq<char>>,
    allowed: spec_fn(Seq<char>) -> bool,
) -> Seq<Seq<char>>
    decreases list.len(),
{
    if list.len() == 0 {
        list
    } else {
        allowed_paths(list.drop_last(), allowed) + plan::one_if(list.last(), allowed(list.last()))
    }
}

fn keep_allowed<A: Fn(&str) -> bool>(list: &Vec<String>, allows: A) -> (kept: Vec<String>)
    requires
        forall|p: &str| #[trigger] call_requires(allows, (p,)),
    ensures
        forall|a: spec_fn(Seq<char>) -> bool| #[trigger]
            selection::agrees(allows, a) ==> text::texts(kept@) == allowed_paths(
                text::texts(list@),
                a,
            ),
{
    let ghost all = text::texts(list@);
    let mut kept: Vec<String> = Vec::new();
    let mut next: usize = 0;
    proof {
        assert forall|a: spec_fn(Seq<char>) -> bool| #[trigger]
            selection::agrees(allows, a) implies text::texts(kept@) == allowed_paths(
            all.take(0),
            a,
        ) by {
            assert(text::texts(kept@) =~= allowed_paths(all.take(0), a));
        }
    }
    while next < list.len()
        invariant
            next <= list@.len(),
            all == text::texts(list@),
            forall|p: &str| #[trigger] call_requires(allows, (p,)),
            forall|a: spec_fn(Seq<char>) -> bool| #[trigger]
                selection::agrees(allows, a) ==> text::texts(kept@) == allowed_paths(
                    all.take(next as int),
                    a,
                ),
        decreases list@.len() - next,
    {
        let ghost part = all.take(next + 1);
        let ghost before = text::texts(kept@);
        assert(part.drop_last() =~= all.take(next as int));
        let one = list[next].as_str();
        assert(part.last() == one@);
        if allows(one) {
            kept.push(one.to_owned());
            assert(text::texts(kept@) =~= before.push(one@));
        }
        proof {
            assert forall|a: spec_fn(Seq<char>) -> bool| #[trigger]
                selection::agrees(allows, a) implies text::texts(kept@) == allowed_paths(
                part,
                a,
            ) by {
                assert(text::texts(kept@) =~= allowed_paths(part, a));
            }
        }
        next = next + 1;
    }
    assert(all.take(next as int) =~= all);
    kept
}

/// The entries that a look at some paths concerns. Each path counts, also where its parent is
/// looked at too.
pub open spec fn looked_at(
    names: HostNames,
    list: Seq<Seq<char>>,
    configured: Seq<Seq<char>>,
) -> Seq<Seq<char>> {
    authorized(
        text_order::sorted_distinct(list.map_values(|path: Seq<char>| names.observed(path))),
        selection::scopes_of(names, configured),
    )
}

/// Begin a look at single entries in the namespace of configured roots.
pub fn scan_metadata_in_namespace<A: Fn(&str) -> bool, M: Fn(&[String]) -> Vec<String>>(
    list: &[String],
    configured: &[String],
    names: &HostNames,
    mounts: Result<(), String>,
    allows: A,
    excluded_within: M,
) -> (scan: Scan)
    requires
        forall|p: &str| #[trigger] call_requires(allows, (p,)),
        forall|p: &[String]| #[trigger] call_requires(excluded_within, (p,)),
    ensures
        scan.fresh(),
        !scan.report.cancelled,
        text::texts(scan.report.roots@) == looked_at(
            *names,
            text::texts(list@),
            text::texts(configured@),
        ),
        match mounts {
            Ok(_) => {
                &&& text::texts(scan.report.uncovered@) == Seq::<Seq<char>>::empty()
                &&& text::texts(scan.report.errors@) == Seq::<Seq<char>>::empty()
                &&& forall|a: spec_fn(Seq<char>) -> bool| #[trigger]
                    selection::agrees(allows, a) ==> text::texts(scan.starts@) == allowed_paths(
                        text::texts(scan.report.roots@),
                        a,
                    )
                &&& mounts_within(
                    excluded_within,
                    text::texts(scan.report.roots@),
                    scan.report.excluded_mounts,
                )
            },
            Err(error) => {
                &&& text::texts(scan.report.uncovered@) == text::texts(scan.report.roots@)
                &&& text::texts(scan.report.errors@) == seq![error@]
                &&& scan.starts@.len() == 0
                &&& scan.report.excluded_mounts@.len() == 0
            },
        },
{
    let ghost each = text::texts(list@).map_values(|path: Seq<char>| names.observed(path));
    let mut seen: Vec<String> = Vec::new();
    let mut next: usize = 0;
    assert(text::texts(seen@) =~= each.take(0));
    while next < list.len()
        invariant
            next <= list@.len(),
            each == text::texts(list@).map_values(|path: Seq<char>| names.observed(path)),
            text::texts(seen@) == each.take(next as int),
        decreases list@.len() - next,
    {
        let ghost before = text::texts(seen@);
        let path = names.observed_path(list[next].as_str());
        seen.push(path);
        next = next + 1;
        assert(text::texts(seen@) =~= before.push(path@));
        assert(text::texts(seen@) =~= each.take(next as int));
    }
    assert(each.take(next as int) =~= each);
    let sorted = sort_distinct(seen);
    let configured = normalize_scopes(configured, names);
    let kept = keep_authorized(&sorted, configured.as_slice());
    let mut report = empty_report();
    match mounts {
        Err(error) => {
            report.uncovered = copy_texts(kept.as_slice());
            report.errors = vec![error];
            assert(text::texts(report.errors@) =~= seq![error@]);
            report.roots = kept;
            Scan::over(report)
        },
        Ok(_) => {
            report.excluded_mounts = excluded_within(kept.as_slice());
            assert(mounts_within(excluded_within, text::texts(kept@), report.excluded_mounts));
            let starts = keep_allowed(&kept, allows);
            report.roots = kept;
            let mut scan = Scan::over(report);
            scan.configured = configured;
            scan.starts = starts;
            scan
        },
    }
}

/// Begin a look at single entries.
pub fn scan_metadata<A: Fn(&str) -> bool, M: Fn(&[String]) -> Vec<String>>(
    list: &[String],
    names: &HostNames,
    mounts: Result<(), String>,
    allows: A,
    excluded_within: M,
) -> (scan: Scan)
    requires
        forall|p: &str| #[trigger] call_requires(allows, (p,)),
        forall|p: &[String]| #[trigger] call_requires(excluded_within, (p,)),
    ensures
        scan.fresh(),
        !scan.report.cancelled,
        text::texts(scan.report.roots@) == looked_at(
            *names,
            text::texts(list@),
            text::texts(list@),
        ),
        match mounts {
            Ok(_) => {
                &&& text::texts(scan.report.uncovered@) == Seq::<Seq<char>>::empty()
                &&& text::texts(scan.report.errors@) == Seq::<Seq<char>>::empty()
                &&& forall|a: spec_fn(Seq<char>) -> bool| #[trigger]
                    selection::agrees(allows, a) ==> text::texts(scan.starts@) == allowed_paths(
                        text::texts(scan.report.roots@),
                        a,
                    )
                &&& mounts_within(
                    excluded_within,
                    text::texts(scan.report.roots@),
                    scan.report.excluded_mounts,
                )
            },
            Err(error) => {
                &&& text::texts(scan.report.uncovered@) == text::texts(scan.report.roots@)
                &&& text::texts(scan.report.errors@) == seq![error@]
                &&& scan.starts@.len() == 0
                &&& scan.report.excluded_mounts@.len() == 0
            },
        },
{
    scan_metadata_in_namespace(list, list, names, mounts, allows, excluded_within)
}

/// All entries of some steps, one after the other.
pub open spec fn together(steps: Seq<Seq<ScannedFile>>) -> Seq<ScannedFile>
    decreases steps.len(),
{
    if steps.len() == 0 {
        Seq::empty()
    } else {
        together(steps.drop_last()) + steps.last()
    }
}

/// A run of steps from scan to scan.
pub open spec fn runs(
    scans: Seq<Scan>,
    taken: Seq<Seq<ScannedFile>>,
    given: Seq<Seq<ScannedFile>>,
) -> bool {
    &&& taken.len() == given.len()
    &&& scans.len() == taken.len() + 1
    &&& forall|i: int|
        0 <= i < taken.len() ==> hands_on(#[trigger] scans[i], scans[i + 1], taken[i], given[i])
}

/// Whatever the steps of a scan are, each entry that it takes in is counted and handed on once,
/// in its order, or still waits; and the scan stays bound to what it began with.
pub proof fn law_every_entry_is_handed_on_once(
    scans: Seq<Scan>,
    taken: Seq<Seq<ScannedFile>>,
    given: Seq<Seq<ScannedFile>>,
)
    requires
        runs(scans, taken, given),
    ensures
        same_scope(scans[0], scans.last()),
        together(given) + scans.last().pending@ == scans[0].pending@ + together(taken),
        scans.last().report.entries == scans[0].report.entries + together(taken).len(),
        scans[0].report.entries == 0 && scans[0].pending@.len() == 0
            ==> scans.last().report.entries == together(given).len() + scans.last().pending@.len(),
    decreases taken.len(),
{
    if taken.len() > 0 {
        let n = taken.len() - 1;
        let before = scans.drop_last();
        assert forall|i: int| 0 <= i < taken.drop_last().len() implies hands_on(
            #[trigger] before[i],
            before[i + 1],
            taken.drop_last()[i],
            given.drop_last()[i],
        ) by {
            assert(hands_on(scans[i], scans[i + 1], taken[i], given[i]));
        }
        law_every_entry_is_handed_on_once(before, taken.drop_last(), given.drop_last());
        assert(hands_on(scans[n], scans[n + 1], taken[n], given[n]));
        assert(before.last() == scans[n]);
        let (old, new) = (scans[n].pending@, scans[n + 1].pending@);
        assert(together(given) + new =~= together(given.drop_last()) + (given[n] + new));
        assert(together(given.drop_last()) + (old + taken[n]) =~= (together(given.drop_last()) + old)
            + taken[n]);
        assert(scans[0].pending@ + together(taken) =~= (scans[0].pending@ + together(
            taken.drop_last(),
        )) + taken[n]);
    } else {
        assert(together(given) + scans[0].pending@ =~= scans[0].pending@ + together(taken));
    }
    if scans[0].report.entries == 0 && scans[0].pending@.len() == 0 {
        assert((together(given) + scans.last().pending@).len() == together(given).len()
            + scans.last().pending@.len());
    }
}

/// A passing scope never becomes a choice: what a scan starts from belongs to the index and
/// lies in a configured root, apart from the data volume of a scan of everything.
pub proof fn law_scopes_never_leave_the_selection(
    list: Seq<Seq<char>>,
    roots: Seq<Seq<char>>,
    path: Seq<char>,
)
    requires
        authorized(list, roots).contains(path),
    ensures
        list.contains(path),
        namespace::covered(roots, path),
        namespace::in_namespace(path, roots),
    decreases list.len(),
{
    if list.len() > 0 {
        let before = authorized(list.drop_last(), roots);
        let all = authorized(list, roots);
        let i = choose|i: int| 0 <= i < all.len() && all[i] == path;
        if i < before.len() {
            assert(before[i] == path);
            law_scopes_never_leave_the_selection(list.drop_last(), roots, path);
            let j = choose|j: int| 0 <= j < list.drop_last().len() && list.drop_last()[j] == path;
            assert(list[j] == path);
        } else {
            assert(list[list.len() - 1] == path);
        }
    }
}

} // verus!
