//! A proof of what the host is now.
use crate::paths;
use crate::paths::{join, starts_with};
use crate::scan_resume;
use crate::scan_resume::{
    Access, Inspection, MountRecord, MountType, ResumeProof, RootIdentity, PROOF_VERSION,
};
use crate::scanner::namespace;
use crate::scanner::namespace::{among, path_in_namespace, visible_path, HostNames};
use crate::scanner::selection;
use crate::scanner::selection::normalize_scopes;
use crate::scanner::traversal;
use crate::scanner::traversal::keep_authorized;
use crate::text;
use crate::text::{append_texts, copy_texts, same_text};
use crate::text_order;
use crate::text_order::{precedes, sort_distinct};
use vstd::prelude::*;

verus! {

/// A filesystem that the host has mounted; `device` is known where it may be indexed.
#[derive(Clone, Debug)]
pub struct HostMount {
    pub path: String,
    pub source: String,
    pub kind: String,
    pub flags: u32,
    pub device: Option<u64>,
}

/// What the host says of itself.
#[derive(Clone, Debug)]
pub struct HostFacts {
    pub boot_device: u64,
    pub boot_session: String,
    /// The identity of the boot volume's event history, where it keeps one.
    pub journal_uuid: Option<String>,
    pub mounts: Vec<HostMount>,
    pub home: Option<String>,
}

/// Objects are found as by a function of the path.
pub open spec fn identified_as<F: Fn(&str) -> Result<(u64, u64), String>>(
    ask: F,
    answer: spec_fn(Seq<char>) -> Option<(u64, u64)>,
) -> bool {
    forall|path: &str, said: Result<(u64, u64), String>| #[trigger]
        call_ensures(ask, (path,), said) ==> match said {
            Ok(found) => answer(path@) == Some(found),
            Err(_) => answer(path@) is None,
        }
}

/// The order of roots: by path, then by device and object.
pub open spec fn root_at_most(a: (Seq<char>, u64, u64), b: (Seq<char>, u64, u64)) -> bool {
    text_order::text_before(a.0, b.0) || (a.0 == b.0 && (a.1 < b.1 || (a.1 == b.1 && a.2 <= b.2)))
}

pub open spec fn roots_ascending(roots: Seq<(Seq<char>, u64, u64)>) -> bool {
    forall|i: int, j: int|
        0 <= i < j < roots.len() ==> root_at_most(#[trigger] roots[i], #[trigger] roots[j])
}

proof fn lemma_root_order(
    a: (Seq<char>, u64, u64),
    b: (Seq<char>, u64, u64),
    c: (Seq<char>, u64, u64),
)
    ensures
        root_at_most(a, b) || root_at_most(b, a),
        root_at_most(a, b) && root_at_most(b, c) ==> root_at_most(a, c),
{
    text_order::lemma_text_order(a.0, b.0);
    text_order::lemma_text_order(b.0, c.0);
    if text_order::text_before(a.0, b.0) && text_order::text_before(b.0, c.0) {
        text_order::lemma_text_transitive(a.0, b.0, c.0);
    }
}

proof fn lemma_insert_counts<A>(list: Seq<A>, at: int, item: A)
    requires
        0 <= at <= list.len(),
    ensures
        list.insert(at, item).to_multiset() == list.to_multiset().insert(item),
{
    broadcast use vstd::seq_lib::group_to_multiset_ensures;

    let more = list.insert(at, item);
    assert(more.remove(at) =~= list);
    assert(more[at] == item);
    assert(more.contains(item));
    assert(more.remove(at).to_multiset() =~= more.to_multiset().remove(item));
    assert(more.to_multiset() =~= list.to_multiset().insert(item));
}

fn root_after(a: &RootIdentity, b: &RootIdentity) -> (after: bool)
    ensures
        after == !root_at_most(scan_resume::root_view(*a), scan_resume::root_view(*b)),
{
    if precedes(a.path.as_str(), b.path.as_str()) {
        return false;
    }
    if !same_text(a.path.as_str(), b.path.as_str()) {
        return true;
    }
    !(a.device < b.device || (a.device == b.device && a.inode <= b.inode))
}

/// Put a root where it belongs.
fn place_root(roots: &mut Vec<RootIdentity>, root: RootIdentity)
    requires
        roots_ascending(scan_resume::root_views(old(roots)@)),
    ensures
        roots_ascending(scan_resume::root_views(final(roots)@)),
        scan_resume::root_views(final(roots)@).to_multiset() == scan_resume::root_views(
            old(roots)@,
        ).to_multiset().insert(scan_resume::root_view(root)),
{
    let ghost before = scan_resume::root_views(roots@);
    let ghost item = scan_resume::root_view(root);
    let mut at: usize = 0;
    while at < roots.len() && !root_after(&roots[at], &root)
        invariant
            at <= roots@.len(),
            before == scan_resume::root_views(roots@),
            item == scan_resume::root_view(root),
            forall|i: int| 0 <= i < at ==> root_at_most(#[trigger] before[i], item),
        decreases roots@.len() - at,
    {
        at = at + 1;
    }
    roots.insert(at, root);
    proof {
        let after = scan_resume::root_views(roots@);
        assert(after =~= before.insert(at as int, item));
        lemma_insert_counts(before, at as int, item);
        assert forall|i: int, j: int| 0 <= i < j < after.len() implies root_at_most(
            #[trigger] after[i],
            #[trigger] after[j],
        ) by {
            if i == at {
                lemma_root_order(before[at as int], item, before[at as int]);
                if j > at + 1 {
                    assert(root_at_most(before[at as int], before[j - 1]));
                    lemma_root_order(item, before[at as int], before[j - 1]);
                }
            } else if j == at {
            } else {
                let x = if i < at {
                    i
                } else {
                    i - 1
                };
                let y = if j < at {
                    j
                } else {
                    j - 1
                };
                assert(root_at_most(before[x], before[y]));
            }
        }
    }
}

/// The order of records: by path, then by the other text, then by number.
pub open spec fn record_before(
    a: (Seq<char>, Seq<char>, u32),
    b: (Seq<char>, Seq<char>, u32),
) -> bool {
    text_order::text_before(a.0, b.0) || (a.0 == b.0 && (text_order::text_before(a.1, b.1) || (a.1
        == b.1 && a.2 < b.2)))
}

/// Records in order, none twice.
pub open spec fn records_ascending(records: Seq<(Seq<char>, Seq<char>, u32)>) -> bool {
    forall|i: int, j: int|
        0 <= i < j < records.len() ==> record_before(#[trigger] records[i], #[trigger] records[j])
}

proof fn lemma_record_order(
    a: (Seq<char>, Seq<char>, u32),
    b: (Seq<char>, Seq<char>, u32),
    c: (Seq<char>, Seq<char>, u32),
)
    ensures
        a == b || record_before(a, b) || record_before(b, a),
        record_before(a, b) && record_before(b, c) ==> record_before(a, c),
{
    text_order::lemma_text_order(a.0, b.0);
    text_order::lemma_text_order(b.0, c.0);
    text_order::lemma_text_order(a.1, b.1);
    text_order::lemma_text_order(b.1, c.1);
    if text_order::text_before(a.0, b.0) && text_order::text_before(b.0, c.0) {
        text_order::lemma_text_transitive(a.0, b.0, c.0);
    }
    if text_order::text_before(a.1, b.1) && text_order::text_before(b.1, c.1) {
        text_order::lemma_text_transitive(a.1, b.1, c.1);
    }
}

pub open spec fn record_views(records: Seq<MountRecord>) -> Seq<(Seq<char>, Seq<char>, u32)> {
    records.map_values(|record: MountRecord| scan_resume::mount_view(record))
}

fn record_precedes(a: &MountRecord, b: &MountRecord) -> (before: bool)
    ensures
        before == record_before(scan_resume::mount_view(*a), scan_resume::mount_view(*b)),
{
    precedes(a.path.as_str(), b.path.as_str()) || (same_text(a.path.as_str(), b.path.as_str()) && (
    precedes(a.source.as_str(), b.source.as_str()) || (same_text(
        a.source.as_str(),
        b.source.as_str(),
    ) && a.flags < b.flags)))
}

/// Put a record where it belongs, unless it is there.
fn place_record(records: &mut Vec<MountRecord>, record: MountRecord)
    requires
        records_ascending(record_views(old(records)@)),
    ensures
        records_ascending(record_views(final(records)@)),
        record_views(final(records)@).to_set() == record_views(old(records)@).to_set().insert(
            scan_resume::mount_view(record),
        ),
{
    let ghost before = record_views(records@);
    let ghost item = scan_resume::mount_view(record);
    let mut at: usize = 0;
    while at < records.len() && record_precedes(&records[at], &record)
        invariant
            at <= records@.len(),
            before == record_views(records@),
            item == scan_resume::mount_view(record),
            forall|i: int| 0 <= i < at ==> record_before(#[trigger] before[i], item),
        decreases records@.len() - at,
    {
        at = at + 1;
    }
    if at < records.len() && !record_precedes(&record, &records[at]) {
        proof {
            lemma_record_order(before[at as int], item, item);
            assert(before.contains(item));
            assert(before.to_set() =~= before.to_set().insert(item));
        }
        return;
    }
    records.insert(at, record);
    proof {
        let after = record_views(records@);
        assert(after =~= before.insert(at as int, item));
        assert forall|i: int, j: int| 0 <= i < j < after.len() implies record_before(
            #[trigger] after[i],
            #[trigger] after[j],
        ) by {
            if i == at {
                if j > at + 1 {
                    assert(record_before(before[at as int], before[j - 1]));
                    lemma_record_order(item, before[at as int], before[j - 1]);
                }
            } else if j == at {
            } else {
                let x = if i < at {
                    i
                } else {
                    i - 1
                };
                let y = if j < at {
                    j
                } else {
                    j - 1
                };
                assert(record_before(before[x], before[y]));
            }
        }
        assert forall|t: (Seq<char>, Seq<char>, u32)|
            after.to_set().contains(t) == #[trigger] before.to_set().insert(item).contains(t) by {
            if after.contains(t) {
                let k = choose|k: int| 0 <= k < after.len() && after[k] == t;
                if k < at {
                    assert(before[k] == t);
                } else if k > at {
                    assert(before[k - 1] == t);
                }
            }
            if before.contains(t) {
                let k = choose|k: int| 0 <= k < before.len() && before[k] == t;
                if k < at {
                    assert(after[k] == t);
                } else {
                    assert(after[k + 1] == t);
                }
            }
            assert(after[at as int] == item);
        }
        assert(after.to_set() =~= before.to_set().insert(item));
    }
}

/// A path and one of some roots lie one within the other.
pub open spec fn touches(path: Seq<char>, roots: Seq<Seq<char>>) -> bool {
    exists|i: int|
        0 <= i < roots.len() && (paths::path_starts_with(#[trigger] roots[i], path)
            || paths::path_starts_with(path, roots[i]))
}

fn touches_any(path: &str, roots: &[String]) -> (yes: bool)
    ensures
        yes == touches(path@, text::texts(roots@)),
{
    let ghost all = text::texts(roots@);
    let mut next: usize = 0;
    while next < roots.len()
        invariant
            next <= roots@.len(),
            all == text::texts(roots@),
            forall|i: int|
                0 <= i < next ==> !(paths::path_starts_with(#[trigger] all[i], path@)
                    || paths::path_starts_with(path@, all[i])),
        decreases roots@.len() - next,
    {
        assert(all[next as int] == roots@[next as int]@);
        if starts_with(roots[next].as_str(), path) || starts_with(path, roots[next].as_str()) {
            return true;
        }
        next = next + 1;
    }
    false
}

/// A mount that matters for some roots.
pub open spec fn matters(names: HostNames, mount: HostMount, roots: Seq<Seq<char>>) -> bool {
    let path = namespace::visible(names.firmlinks@, mount.path@);
    namespace::in_namespace(path, roots) && touches(path, roots)
}

pub open spec fn record_of(names: HostNames, mount: HostMount) -> (Seq<char>, Seq<char>, u32) {
    (namespace::visible(names.firmlinks@, mount.path@), mount.source@, mount.flags)
}

pub open spec fn kind_of(names: HostNames, mount: HostMount) -> (Seq<char>, Seq<char>) {
    (namespace::visible(names.firmlinks@, mount.path@), mount.kind@)
}

/// The records of the mounts that matter.
pub open spec fn records_of(
    names: HostNames,
    mounts: Seq<HostMount>,
    roots: Seq<Seq<char>>,
) -> Set<(Seq<char>, Seq<char>, u32)>
    decreases mounts.len(),
{
    if mounts.len() == 0 {
        Set::empty()
    } else {
        let before = records_of(names, mounts.drop_last(), roots);
        if matters(names, mounts.last(), roots) {
            before.insert(record_of(names, mounts.last()))
        } else {
            before
        }
    }
}

/// The kinds of the mounts that matter, as records without a number.
pub open spec fn kinds_of(
    names: HostNames,
    mounts: Seq<HostMount>,
    roots: Seq<Seq<char>>,
) -> Set<(Seq<char>, Seq<char>, u32)>
    decreases mounts.len(),
{
    if mounts.len() == 0 {
        Set::empty()
    } else {
        let before = kinds_of(names, mounts.drop_last(), roots);
        if matters(names, mounts.last(), roots) {
            let kind = kind_of(names, mounts.last());
            before.insert((kind.0, kind.1, 0u32))
        } else {
            before
        }
    }
}

/// The scopes on devices other than that of the boot volume, which its event history does not
/// tell of.
pub open spec fn foreign_scopes(
    names: HostNames,
    mounts: Seq<HostMount>,
    roots: Seq<Seq<char>>,
    boot: u64,
) -> Seq<Seq<char>>
    decreases mounts.len(),
{
    if mounts.len() == 0 {
        Seq::empty()
    } else {
        let before = foreign_scopes(names, mounts.drop_last(), roots, boot);
        let mount = mounts.last();
        if matters(names, mount, roots) && mount.device is Some && mount.device != Some(boot) {
            before + scan_resume::commons(namespace::visible(names.firmlinks@, mount.path@), roots)
        } else {
            before
        }
    }
}

/// What the mounts of the host say.
struct Mounted {
    records: Vec<MountRecord>,
    kinds: Vec<MountRecord>,
    foreign: Vec<String>,
}

fn look_at_mounts(host: &HostFacts, roots: &[String], names: &HostNames) -> (seen: Mounted)
    ensures
        records_ascending(record_views(seen.records@)),
        record_views(seen.records@).to_set() == records_of(
            *names,
            host.mounts@,
            text::texts(roots@),
        ),
        records_ascending(record_views(seen.kinds@)),
        record_views(seen.kinds@).to_set() == kinds_of(*names, host.mounts@, text::texts(roots@)),
        text::texts(seen.foreign@) == foreign_scopes(
            *names,
            host.mounts@,
            text::texts(roots@),
            host.boot_device,
        ),
{
    let ghost all = host.mounts@;
    let ghost bounds = text::texts(roots@);
    let mut records: Vec<MountRecord> = Vec::new();
    let mut kinds: Vec<MountRecord> = Vec::new();
    let mut foreign: Vec<String> = Vec::new();
    let mut next: usize = 0;
    proof {
        assert(record_views(records@).to_set() =~= records_of(*names, all.take(0), bounds));
        assert(record_views(kinds@).to_set() =~= kinds_of(*names, all.take(0), bounds));
        assert(text::texts(foreign@) =~= foreign_scopes(
            *names,
            all.take(0),
            bounds,
            host.boot_device,
        ));
    }
    while next < host.mounts.len()
        invariant
            next <= host.mounts@.len(),
            all == host.mounts@,
            bounds == text::texts(roots@),
            records_ascending(record_views(records@)),
            record_views(records@).to_set() == records_of(*names, all.take(next as int), bounds),
            records_ascending(record_views(kinds@)),
            record_views(kinds@).to_set() == kinds_of(*names, all.take(next as int), bounds),
            text::texts(foreign@) == foreign_scopes(
                *names,
                all.take(next as int),
                bounds,
                host.boot_device,
            ),
        decreases host.mounts@.len() - next,
    {
        let ghost part = all.take(next + 1);
        assert(part.drop_last() =~= all.take(next as int));
        let mount = &host.mounts[next];
        assert(part.last() == *mount);
        let path = visible_path(mount.path.as_str(), &names.firmlinks);
        if path_in_namespace(path.as_str(), roots) && touches_any(path.as_str(), roots) {
            place_record(
                &mut records,
                MountRecord {
                    path: path.clone(),
                    source: mount.source.clone(),
                    flags: mount.flags,
                },
            );
            place_record(
                &mut kinds,
                MountRecord { path: path.clone(), source: mount.kind.clone(), flags: 0 },
            );
            if let Some(device) = mount.device {
                if device != host.boot_device {
                    scan_resume::add_commons(&mut foreign, path.as_str(), roots);
                }
            }
        }
        next = next + 1;
    }
    assert(all.take(next as int) =~= all);
    Mounted { records, kinds, foreign }
}

/// Directories of a home directory that the operating system guards.
pub open spec fn guarded() -> Seq<Seq<char>> {
    seq![
        "Desktop"@,
        "Documents"@,
        "Downloads"@,
        "Pictures"@,
        "Movies"@,
        "Music"@,
        "Library/Safari"@,
        "Library/Mail"@,
        "Library/Messages"@,
        "Library/Calendars"@,
        "Library/HomeKit"@,
        "Library/Containers"@,
        "Library/Group Containers"@,
        "Library/Application Support/com.apple.TCC"@,
        "Pictures/Photos Library.photoslibrary"@,
    ]
}

fn guarded_names() -> (list: Vec<String>)
    ensures
        text::texts(list@) == guarded(),
{
    let mut list: Vec<String> = Vec::new();
    list.push("Desktop".to_owned());
    list.push("Documents".to_owned());
    list.push("Downloads".to_owned());
    list.push("Pictures".to_owned());
    list.push("Movies".to_owned());
    list.push("Music".to_owned());
    list.push("Library/Safari".to_owned());
    list.push("Library/Mail".to_owned());
    list.push("Library/Messages".to_owned());
    list.push("Library/Calendars".to_owned());
    list.push("Library/HomeKit".to_owned());
    list.push("Library/Containers".to_owned());
    list.push("Library/Group Containers".to_owned());
    list.push("Library/Application Support/com.apple.TCC".to_owned());
    list.push("Pictures/Photos Library.photoslibrary".to_owned());
    assert(text::texts(list@) =~= guarded());
    list
}

/// The guarded directories of a home directory that some roots touch.
pub open spec fn guarded_in(home: Seq<char>, names: Seq<Seq<char>>, roots: Seq<Seq<char>>) -> Seq<
    Seq<char>,
>
    decreases names.len(),
{
    if names.len() == 0 {
        names
    } else {
        let before = guarded_in(home, names.drop_last(), roots);
        let path = paths::path_join(home, names.last());
        if touches(path, roots) {
            before.push(path)
        } else {
            before
        }
    }
}

fn guarded_paths(home: &str, roots: &[String]) -> (list: Vec<String>)
    ensures
        text::texts(list@) == guarded_in(home@, guarded(), text::texts(roots@)),
{
    let names = guarded_names();
    let ghost all = guarded();
    let ghost bounds = text::texts(roots@);
    let mut list: Vec<String> = Vec::new();
    let mut next: usize = 0;
    assert(text::texts(list@) =~= guarded_in(home@, all.take(0), bounds));
    while next < names.len()
        invariant
            next <= names@.len(),
            all == text::texts(names@),
            bounds == text::texts(roots@),
            text::texts(list@) == guarded_in(home@, all.take(next as int), bounds),
        decreases names@.len() - next,
    {
        let ghost part = all.take(next + 1);
        let ghost before = text::texts(list@);
        assert(part.drop_last() =~= all.take(next as int));
        assert(part.last() == names@[next as int]@);
        let path = join(home, names[next].as_str());
        if touches_any(path.as_str(), roots) {
            list.push(path);
            assert(text::texts(list@) =~= before.push(path@));
        }
        next = next + 1;
    }
    assert(all.take(next as int) =~= all);
    list
}

/// The paths whose access is probed.
pub open spec fn probes(
    roots: Seq<Seq<char>>,
    uncovered: Seq<Seq<char>>,
    home: Option<Seq<char>>,
) -> Seq<Seq<char>> {
    text_order::sorted_distinct(
        roots + traversal::authorized(uncovered, roots) + (match home {
            Some(home) => guarded_in(home, guarded(), roots),
            None => Seq::empty(),
        }),
    )
}

pub open spec fn home_of(host: HostFacts) -> Option<Seq<char>> {
    match host.home {
        Some(home) => Some(home@),
        None => None,
    }
}

fn probe_paths(roots: &[String], gaps: &Vec<String>, host: &HostFacts) -> (list: Vec<String>)
    ensures
        forall|uncovered: Seq<Seq<char>>|
            text::texts(gaps@) == #[trigger] traversal::authorized(
                uncovered,
                text::texts(roots@),
            ) ==> text::texts(list@) == probes(text::texts(roots@), uncovered, home_of(*host)),
{
    let mut list = copy_texts(roots);
    append_texts(&mut list, copy_texts(gaps.as_slice()));
    if let Some(home) = &host.home {
        append_texts(&mut list, guarded_paths(home.as_str(), roots));
    }
    let ghost all = text::texts(list@);
    proof {
        if host.home is None {
            assert(all =~= text::texts(roots@) + text::texts(gaps@) + Seq::<Seq<char>>::empty());
        }
    }
    sort_distinct(list)
}

/// The roots with their objects, in the order in which they were chosen.
pub open spec fn identities(
    roots: Seq<Seq<char>>,
    ids: spec_fn(Seq<char>) -> Option<(u64, u64)>,
) -> Seq<(Seq<char>, u64, u64)> {
    roots.map_values(
        |root: Seq<char>|
            match ids(root) {
                Some(id) => (root, id.0, id.1),
                None => (root, 0u64, 0u64),
            },
    )
}

/// A root on a device other than that of the boot volume.
pub open spec fn is_foreign(
    ids: spec_fn(Seq<char>) -> Option<(u64, u64)>,
    boot: u64,
    root: Seq<char>,
) -> bool {
    ids(root) matches Some(id) && id.0 != boot
}

/// What could be read of some paths.
pub open spec fn probed(
    list: Seq<Seq<char>>,
    allowed: spec_fn(Seq<char>) -> bool,
    readable: spec_fn(Seq<char>) -> bool,
) -> Seq<(Seq<char>, bool)> {
    text::kept_texts(list, allowed).map_values(|path: Seq<char>| (path, readable(path)))
}

pub open spec fn access_views(access: Seq<Access>) -> Seq<(Seq<char>, bool)> {
    access.map_values(|one: Access| (one.path@, one.readable))
}

/// Gaps of the index that can be read now.
pub open spec fn reopened(
    list: Seq<Seq<char>>,
    uncovered: Seq<Seq<char>>,
    allowed: spec_fn(Seq<char>) -> bool,
    readable: spec_fn(Seq<char>) -> bool,
) -> Seq<Seq<char>> {
    text::kept_texts(
        text::kept_texts(list, allowed),
        |path: Seq<char>| readable(path) && uncovered.contains(path),
    )
}

/// Every root is on a mount that is indexed, and its object is known.
pub open spec fn roots_known(
    roots: Seq<Seq<char>>,
    allowed: spec_fn(Seq<char>) -> bool,
    ids: spec_fn(Seq<char>) -> Option<(u64, u64)>,
) -> bool {
    forall|i: int|
        0 <= i < roots.len() ==> allowed(#[trigger] roots[i]) && ids(roots[i]) is Some
}

/// What an inspection finds.
pub open spec fn finds(
    inspection: Inspection,
    roots: Seq<Seq<char>>,
    uncovered: Seq<Seq<char>>,
    host: HostFacts,
    names: HostNames,
    allowed: spec_fn(Seq<char>) -> bool,
    ids: spec_fn(Seq<char>) -> Option<(u64, u64)>,
    readable: spec_fn(Seq<char>) -> bool,
) -> bool {
    let proof_now = inspection.proof;
    let list = probes(roots, uncovered, home_of(host));
    let gaps = traversal::authorized(uncovered, roots);
    let kinds = scan_resume::type_views(proof_now.mount_types@).map_values(
        |kind: (Seq<char>, Seq<char>)| (kind.0, kind.1, 0u32),
    );
    &&& host.journal_uuid matches Some(journal) && proof_now.journal_uuid@ == journal@
    &&& roots_known(roots, allowed, ids)
    &&& proof_now.version == PROOF_VERSION
    &&& proof_now.boot_session@ == host.boot_session@
    &&& roots_ascending(scan_resume::root_views(proof_now.roots@))
    &&& scan_resume::root_views(proof_now.roots@).to_multiset() == identities(
        roots,
        ids,
    ).to_multiset()
    &&& records_ascending(record_views(proof_now.mounts@))
    &&& record_views(proof_now.mounts@).to_set() == records_of(names, host.mounts@, roots)
    &&& records_ascending(kinds)
    &&& kinds.to_set() == kinds_of(names, host.mounts@, roots)
    &&& access_views(proof_now.access@) == probed(list, allowed, readable)
    &&& text::texts(inspection.recheck_roots@) == selection::scopes_of(
        names,
        gaps + text::kept_texts(roots, |root: Seq<char>| is_foreign(ids, host.boot_device, root))
            + foreign_scopes(names, host.mounts@, roots, host.boot_device) + reopened(
            list,
            uncovered,
            allowed,
            readable,
        ),
    )
}

/// The objects of the roots, and those roots that are not on the boot device.
fn identify_roots<A: Fn(&str) -> bool, I: Fn(&str) -> Result<(u64, u64), String>>(
    roots: &[String],
    boot: u64,
    allows: &A,
    identify: &I,
) -> (result: Result<(Vec<RootIdentity>, Vec<String>), String>)
    requires
        forall|p: &str| #[trigger] call_requires(*allows, (p,)),
        forall|p: &str| #[trigger] call_requires(*identify, (p,)),
    ensures
        forall|
            a: spec_fn(Seq<char>) -> bool,
            d: spec_fn(Seq<char>) -> Option<(u64, u64)>,
        | #[trigger]
            selection::agrees(*allows, a) && #[trigger] identified_as(*identify, d) ==> match result {
                Ok((found, foreign)) => {
                    &&& roots_known(text::texts(roots@), a, d)
                    &&& roots_ascending(scan_resume::root_views(found@))
                    &&& scan_resume::root_views(found@).to_multiset() == identities(
                        text::texts(roots@),
                        d,
                    ).to_multiset()
                    &&& text::texts(foreign@) == text::kept_texts(
                        text::texts(roots@),
                        |root: Seq<char>| is_foreign(d, boot, root),
                    )
                },
                Err(_) => !roots_known(text::texts(roots@), a, d),
            },
        result matches Err(reason) ==> reason@
            == "Configured root is not on a supported local mount"@ || exists|root: &str| #[trigger]
            call_ensures(*identify, (root,), Err(reason)),
{
    broadcast use vstd::seq_lib::group_to_multiset_ensures;

    let ghost all = text::texts(roots@);
    let mut found: Vec<RootIdentity> = Vec::new();
    let mut foreign: Vec<String> = Vec::new();
    let mut next: usize = 0;
    proof {
        assert forall|
            a: spec_fn(Seq<char>) -> bool,
            d: spec_fn(Seq<char>) -> Option<(u64, u64)>,
        | #[trigger]
            selection::agrees(*allows, a) && #[trigger] identified_as(*identify, d) implies {
            &&& roots_known(all.take(0), a, d)
            &&& scan_resume::root_views(found@).to_multiset() == identities(
                all.take(0),
                d,
            ).to_multiset()
            &&& text::texts(foreign@) == text::kept_texts(
                all.take(0),
                |root: Seq<char>| is_foreign(d, boot, root),
            )
        } by {
            assert(scan_resume::root_views(found@) =~= identities(all.take(0), d));
            assert(text::texts(foreign@) =~= text::kept_texts(
                all.take(0),
                |root: Seq<char>| is_foreign(d, boot, root),
            ));
        }
    }
    while next < roots.len()
        invariant
            next <= roots@.len(),
            all == text::texts(roots@),
            forall|p: &str| #[trigger] call_requires(*allows, (p,)),
            forall|p: &str| #[trigger] call_requires(*identify, (p,)),
            roots_ascending(scan_resume::root_views(found@)),
            forall|
                a: spec_fn(Seq<char>) -> bool,
                d: spec_fn(Seq<char>) -> Option<(u64, u64)>,
            | #[trigger]
                selection::agrees(*allows, a) && #[trigger] identified_as(*identify, d) ==> {
                    &&& roots_known(all.take(next as int), a, d)
                    &&& scan_resume::root_views(found@).to_multiset() == identities(
                        all.take(next as int),
                        d,
                    ).to_multiset()
                    &&& text::texts(foreign@) == text::kept_texts(
                        all.take(next as int),
                        |root: Seq<char>| is_foreign(d, boot, root),
                    )
                },
        decreases roots@.len() - next,
    {
        let root = roots[next].as_str();
        let ghost part = all.take(next + 1);
        assert(part.drop_last() =~= all.take(next as int));
        assert(part.last() == root@);
        assert(all[next as int] == root@);
        if !allows(root) {
            return Err("Configured root is not on a supported local mount".to_owned());
        }
        let id = match identify(root) {
            Ok(id) => id,
            Err(reason) => {
                return Err(reason);
            },
        };
        let ghost (before, outside) = (
            scan_resume::root_views(found@).to_multiset(),
            text::texts(foreign@),
        );
        let one = RootIdentity { path: root.to_owned(), device: id.0, inode: id.1 };
        let ghost view = scan_resume::root_view(one);
        place_root(&mut found, one);
        if id.0 != boot {
            foreign.push(root.to_owned());
            assert(text::texts(foreign@) =~= outside.push(root@));
        }
        proof {
            assert forall|
                a: spec_fn(Seq<char>) -> bool,
                d: spec_fn(Seq<char>) -> Option<(u64, u64)>,
            | #[trigger]
                selection::agrees(*allows, a) && #[trigger] identified_as(*identify, d) implies {
                &&& roots_known(part, a, d)
                &&& scan_resume::root_views(found@).to_multiset() == identities(
                    part,
                    d,
                ).to_multiset()
                &&& text::texts(foreign@) == text::kept_texts(
                    part,
                    |root: Seq<char>| is_foreign(d, boot, root),
                )
            } by {
                let done = all.take(next as int);
                assert(d(root@) == Some(id));
                assert(identities(part, d) =~= identities(done, d).push(view));
                vstd::seq_lib::to_multiset_build(identities(done, d), view);
                assert forall|i: int| 0 <= i < part.len() implies a(#[trigger] part[i]) && d(
                    part[i],
                ) is Some by {
                    if i < done.len() {
                        assert(part[i] == done[i]);
                    }
                }
                let keep = |root: Seq<char>| is_foreign(d, boot, root);
                assert(text::kept_texts(done, keep) == outside);
                assert(keep(root@) == (id.0 != boot));
                assert(text::kept_texts(part, keep) == text::texts(foreign@));
            }
        }
        next = next + 1;
    }
    assert(all.take(next as int) =~= all);
    Ok((found, foreign))
}

/// Probe the access to some paths, and name the gaps that can be read again.
fn probe_access<A: Fn(&str) -> bool, R: Fn(&str) -> bool>(
    list: &Vec<String>,
    uncovered: &[String],
    allows: &A,
    accessible: &R,
) -> (result: (Vec<Access>, Vec<String>))
    requires
        forall|p: &str| #[trigger] call_requires(*allows, (p,)),
        forall|p: &str| #[trigger] call_requires(*accessible, (p,)),
    ensures
        forall|a: spec_fn(Seq<char>) -> bool, r: spec_fn(Seq<char>) -> bool| #[trigger]
            selection::agrees(*allows, a) && #[trigger] selection::agrees(*accessible, r) ==> {
                &&& access_views(result.0@) == probed(text::texts(list@), a, r)
                &&& text::texts(result.1@) == reopened(
                    text::texts(list@),
                    text::texts(uncovered@),
                    a,
                    r,
                )
            },
{
    let ghost all = text::texts(list@);
    let ghost gaps = text::texts(uncovered@);
    let mut access: Vec<Access> = Vec::new();
    let mut again: Vec<String> = Vec::new();
    let mut next: usize = 0;
    proof {
        assert forall|a: spec_fn(Seq<char>) -> bool, r: spec_fn(Seq<char>) -> bool| #[trigger]
            selection::agrees(*allows, a) && #[trigger] selection::agrees(
                *accessible,
                r,
            ) implies access_views(access@) == probed(all.take(0), a, r) && text::texts(again@)
            == reopened(all.take(0), gaps, a, r) by {
            assert(access_views(access@) =~= probed(all.take(0), a, r));
            assert(text::texts(again@) =~= reopened(all.take(0), gaps, a, r));
        }
    }
    while next < list.len()
        invariant
            next <= list@.len(),
            all == text::texts(list@),
            gaps == text::texts(uncovered@),
            forall|p: &str| #[trigger] call_requires(*allows, (p,)),
            forall|p: &str| #[trigger] call_requires(*accessible, (p,)),
            forall|a: spec_fn(Seq<char>) -> bool, r: spec_fn(Seq<char>) -> bool| #[trigger]
                selection::agrees(*allows, a) && #[trigger] selection::agrees(*accessible, r)
                    ==> access_views(access@) == probed(all.take(next as int), a, r)
                    && text::texts(again@) == reopened(all.take(next as int), gaps, a, r),
        decreases list@.len() - next,
    {
        let path = list[next].as_str();
        let ghost part = all.take(next + 1);
        let ghost (seen, open) = (access_views(access@), text::texts(again@));
        assert(part.drop_last() =~= all.take(next as int));
        assert(part.last() == path@);
        let allowed = allows(path);
        let mut readable = false;
        let mut reopen = false;
        if allowed {
            readable = accessible(path);
            access.push(Access { path: path.to_owned(), readable });
            assert(access_views(access@) =~= seen.push((path@, readable)));
            reopen = readable && among(uncovered, path);
            if reopen {
                again.push(path.to_owned());
                assert(text::texts(again@) =~= open.push(path@));
            }
        }
        proof {
            assert forall|a: spec_fn(Seq<char>) -> bool, r: spec_fn(Seq<char>) -> bool| #[trigger]
                selection::agrees(*allows, a) && #[trigger] selection::agrees(
                    *accessible,
                    r,
                ) implies access_views(access@) == probed(part, a, r) && text::texts(again@)
                == reopened(part, gaps, a, r) by {
                let done = all.take(next as int);
                let kept = text::kept_texts(done, a);
                assert(a(path@) == allowed);
                if allowed {
                    assert(text::kept_texts(part, a) == kept.push(path@));
                    assert(kept.push(path@).drop_last() =~= kept);
                    assert(probed(part, a, r) =~= probed(done, a, r).push((path@, r(path@))));
                    assert(kept.push(path@).last() == path@);
                } else {
                    assert(text::kept_texts(part, a) == kept);
                }
            }
        }
        next = next + 1;
    }
    assert(all.take(next as int) =~= all);
    (access, again)
}

/// The kinds of mounts, from records without a number.
fn types_of(records: &Vec<MountRecord>) -> (kinds: Vec<MountType>)
    requires
        forall|i: int| 0 <= i < records@.len() ==> (#[trigger] records@[i]).flags == 0,
    ensures
        scan_resume::type_views(kinds@).map_values(
            |kind: (Seq<char>, Seq<char>)| (kind.0, kind.1, 0u32),
        ) == record_views(records@),
{
    let mut kinds: Vec<MountType> = Vec::new();
    let mut next: usize = 0;
    while next < records.len()
        invariant
            next <= records@.len(),
            kinds@.len() == next,
            forall|i: int|
                0 <= i < next ==> (#[trigger] kinds@[i]).path@ == records@[i].path@ && kinds@[i].kind@
                    == records@[i].source@,
        decreases records@.len() - next,
    {
        kinds.push(
            MountType { path: records[next].path.clone(), kind: records[next].source.clone() },
        );
        next = next + 1;
    }
    assert(scan_resume::type_views(kinds@).map_values(
        |kind: (Seq<char>, Seq<char>)| (kind.0, kind.1, 0u32),
    ) =~= record_views(records@));
    kinds
}

proof fn lemma_kinds_have_no_number(
    names: HostNames,
    mounts: Seq<HostMount>,
    roots: Seq<Seq<char>>,
    record: (Seq<char>, Seq<char>, u32),
)
    requires
        kinds_of(names, mounts, roots).contains(record),
    ensures
        record.2 == 0,
    decreases mounts.len(),
{
    if mounts.len() > 0 {
        let kind = kind_of(names, mounts.last());
        if record != (kind.0, kind.1, 0u32) {
            lemma_kinds_have_no_number(names, mounts.drop_last(), roots, record);
        }
    }
}

/// Take a proof of what the host is now. `allows` tells whether a path is on a mount that is
/// indexed, `identify` the device and object of a root, `accessible` whether a directory can be
/// read.
pub fn inspect<
    A: Fn(&str) -> bool,
    I: Fn(&str) -> Result<(u64, u64), String>,
    R: Fn(&str) -> bool,
>(
    roots: &[String],
    uncovered: &[String],
    host: &HostFacts,
    names: &HostNames,
    allows: A,
    identify: I,
    accessible: R,
) -> (result: Result<Inspection, String>)
    requires
        forall|p: &str| #[trigger] call_requires(allows, (p,)),
        forall|p: &str| #[trigger] call_requires(identify, (p,)),
        forall|p: &str| #[trigger] call_requires(accessible, (p,)),
    ensures
        forall|
            a: spec_fn(Seq<char>) -> bool,
            d: spec_fn(Seq<char>) -> Option<(u64, u64)>,
            r: spec_fn(Seq<char>) -> bool,
        | #[trigger]
            selection::agrees(allows, a) && #[trigger] identified_as(identify, d)
                && #[trigger] selection::agrees(accessible, r) ==> match result {
                Ok(inspection) => finds(
                    inspection,
                    text::texts(roots@),
                    text::texts(uncovered@),
                    *host,
                    *names,
                    a,
                    d,
                    r,
                ),
                Err(_) => host.journal_uuid is None || !roots_known(text::texts(roots@), a, d),
            },
        result matches Err(reason) ==> (if host.journal_uuid is None {
            reason@ == "Boot-volume event history is unavailable"@
        } else {
            reason@ == "Configured root is not on a supported local mount"@ || exists|root: &str| #[trigger]
                call_ensures(identify, (root,), Err(reason))
        }),
{
    let journal = match &host.journal_uuid {
        Some(journal) => journal.clone(),
        None => {
            return Err("Boot-volume event history is unavailable".to_owned());
        },
    };
    let stored = copy_texts(uncovered);
    let gaps = keep_authorized(&stored, roots);
    let mut recheck = copy_texts(gaps.as_slice());
    let (found, foreign) = match identify_roots(roots, host.boot_device, &allows, &identify) {
        Ok(known) => known,
        Err(reason) => {
            return Err(reason);
        },
    };
    append_texts(&mut recheck, foreign);
    let seen = look_at_mounts(host, roots, names);
    let ghost abroad = text::texts(seen.foreign@);
    append_texts(&mut recheck, seen.foreign);
    let list = probe_paths(roots, &gaps, host);
    let (access, again) = probe_access(&list, uncovered, &allows, &accessible);
    append_texts(&mut recheck, again);
    proof {
        assert forall|i: int| 0 <= i < seen.kinds@.len() implies (
        #[trigger] seen.kinds@[i]).flags == 0 by {
            let views = record_views(seen.kinds@);
            assert(views[i] == scan_resume::mount_view(seen.kinds@[i]));
            assert(views.to_set().contains(views[i]));
            lemma_kinds_have_no_number(*names, host.mounts@, text::texts(roots@), views[i]);
        }
    }
    let mount_types = types_of(&seen.kinds);
    let recheck_roots = normalize_scopes(recheck.as_slice(), names);
    Ok(
        Inspection {
            proof: ResumeProof {
                version: PROOF_VERSION,
                boot_session: host.boot_session.clone(),
                journal_uuid: journal,
                roots: found,
                mounts: seen.records,
                mount_types,
                access,
            },
            recheck_roots,
        },
    )
}

} // verus!
