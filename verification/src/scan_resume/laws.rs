//! What a proof of the host holds, said of what the host reports.
use crate::engine;
use crate::paths;
use crate::scan_resume;
use crate::scan_resume::inspect;
use crate::scan_resume::inspect::{HostFacts, HostMount};
use crate::scan_resume::Inspection;
use crate::scanner;
use crate::scanner::namespace;
use crate::scanner::namespace::HostNames;
use crate::scanner::plan;
use crate::scanner::plan::Marks;
use crate::scanner::selection;
use crate::scanner::traversal;
use crate::text;
use crate::text_order;
use vstd::prelude::*;

verus! {

/// A proof names the session, the event history and each root with its device and its object, as
/// the host reports them; it is only made where there is a history and every root is on a mount
/// that is indexed.
pub proof fn law_proofs_name_the_host(
    inspection: Inspection,
    roots: Seq<Seq<char>>,
    uncovered: Seq<Seq<char>>,
    host: HostFacts,
    names: HostNames,
    allowed: spec_fn(Seq<char>) -> bool,
    ids: spec_fn(Seq<char>) -> Option<(u64, u64)>,
    readable: spec_fn(Seq<char>) -> bool,
    i: int,
)
    requires
        inspect::finds(inspection, roots, uncovered, host, names, allowed, ids, readable),
        0 <= i < roots.len(),
    ensures
        inspection.proof.version == 1,
        inspection.proof.boot_session@ == host.boot_session@,
        host.journal_uuid is Some,
        inspection.proof.journal_uuid@ == host.journal_uuid->0@,
        allowed(roots[i]),
        ids(roots[i]) is Some,
        inspection.proof.roots@.len() == roots.len(),
        exists|k: int|
            0 <= k < inspection.proof.roots@.len() && (#[trigger] inspection.proof.roots@[k]).path@
                == roots[i] && inspection.proof.roots@[k].device == (ids(roots[i])->0).0
                && inspection.proof.roots@[k].inode == (ids(roots[i])->0).1,
{
    let found = scan_resume::root_views(inspection.proof.roots@);
    let all = inspect::identities(roots, ids);
    found.to_multiset_ensures();
    all.to_multiset_ensures();
    assert(all.contains(all[i]));
    assert(all.to_multiset().count(all[i]) > 0);
    assert(found.contains(all[i]));
    let k = choose|k: int| 0 <= k < found.len() && found[k] == all[i];
    assert(found[k] == scan_resume::root_view(inspection.proof.roots@[k]));
}

proof fn lemma_mounts(
    names: HostNames,
    mounts: Seq<HostMount>,
    roots: Seq<Seq<char>>,
    i: int,
)
    requires
        0 <= i < mounts.len(),
        inspect::matters(names, mounts[i], roots),
    ensures
        inspect::records_of(names, mounts, roots).contains(
            (
                namespace::visible(names.firmlinks@, mounts[i].path@),
                mounts[i].source@,
                mounts[i].flags,
            ),
        ),
        inspect::kinds_of(names, mounts, roots).contains(
            (namespace::visible(names.firmlinks@, mounts[i].path@), mounts[i].kind@, 0u32),
        ),
    decreases mounts.len(),
{
    if i < mounts.len() - 1 {
        lemma_mounts(names, mounts.drop_last(), roots, i);
    }
}

/// A proof notes the source, the flags and the kind of each mount in or above a root, under the
/// path that it is seen at.
pub proof fn law_proofs_note_the_mounts(
    inspection: Inspection,
    roots: Seq<Seq<char>>,
    uncovered: Seq<Seq<char>>,
    host: HostFacts,
    names: HostNames,
    allowed: spec_fn(Seq<char>) -> bool,
    ids: spec_fn(Seq<char>) -> Option<(u64, u64)>,
    readable: spec_fn(Seq<char>) -> bool,
    i: int,
    j: int,
)
    requires
        inspect::finds(inspection, roots, uncovered, host, names, allowed, ids, readable),
        0 <= i < host.mounts@.len(),
        0 <= j < roots.len(),
        namespace::in_namespace(
            namespace::visible(names.firmlinks@, host.mounts@[i].path@),
            roots,
        ),
        paths::path_starts_with(
            roots[j],
            namespace::visible(names.firmlinks@, host.mounts@[i].path@),
        ) || paths::path_starts_with(
            namespace::visible(names.firmlinks@, host.mounts@[i].path@),
            roots[j],
        ),
    ensures
        exists|k: int|
            0 <= k < inspection.proof.mounts@.len() && (
            #[trigger] inspection.proof.mounts@[k]).path@ == namespace::visible(
                names.firmlinks@,
                host.mounts@[i].path@,
            ) && inspection.proof.mounts@[k].source@ == host.mounts@[i].source@
                && inspection.proof.mounts@[k].flags == host.mounts@[i].flags,
        exists|k: int|
            0 <= k < inspection.proof.mount_types@.len() && (
            #[trigger] inspection.proof.mount_types@[k]).path@ == namespace::visible(
                names.firmlinks@,
                host.mounts@[i].path@,
            ) && inspection.proof.mount_types@[k].kind@ == host.mounts@[i].kind@,
{
    let mount = host.mounts@[i];
    let path = namespace::visible(names.firmlinks@, mount.path@);
    lemma_mounts(names, host.mounts@, roots, i);
    let records = inspect::record_views(inspection.proof.mounts@);
    let record = (path, mount.source@, mount.flags);
    assert(records.to_set().contains(record));
    let k = choose|k: int| 0 <= k < records.len() && records[k] == record;
    assert(inspection.proof.mounts@[k].path@ == path);
    let views = scan_resume::type_views(inspection.proof.mount_types@);
    let kinds = views.map_values(|kind: (Seq<char>, Seq<char>)| (kind.0, kind.1, 0u32));
    let kind = (path, mount.kind@, 0u32);
    assert(kinds.to_set().contains(kind));
    let m = choose|m: int| 0 <= m < kinds.len() && kinds[m] == kind;
    assert(views[m] == (path, mount.kind@));
    assert(inspection.proof.mount_types@[m].path@ == path);
}

proof fn lemma_authorized(list: Seq<Seq<char>>, roots: Seq<Seq<char>>, path: Seq<char>)
    requires
        list.contains(path),
        namespace::covered(roots, path),
        namespace::in_namespace(path, roots),
    ensures
        traversal::authorized(list, roots).contains(path),
    decreases list.len(),
{
    let (init, last) = (list.drop_last(), list.last());
    assert(list =~= init + seq![last]);
    selection::lemma_in_either(init, seq![last], path);
    let before = traversal::authorized(init, roots);
    let own = plan::one_if(
        last,
        namespace::covered(roots, last) && namespace::in_namespace(last, roots),
    );
    selection::lemma_in_either(before, own, path);
    if init.contains(path) {
        lemma_authorized(init, roots, path);
    } else {
        assert(seq![last].contains(path));
        assert(last == path);
        assert(own[0] == path);
    }
}

proof fn lemma_foreign(
    names: HostNames,
    mounts: Seq<HostMount>,
    roots: Seq<Seq<char>>,
    boot: u64,
    i: int,
    path: Seq<char>,
)
    requires
        0 <= i < mounts.len(),
        inspect::matters(names, mounts[i], roots),
        mounts[i].device is Some,
        mounts[i].device->0 != boot,
        scan_resume::commons(
            namespace::visible(names.firmlinks@, mounts[i].path@),
            roots,
        ).contains(path),
    ensures
        inspect::foreign_scopes(names, mounts, roots, boot).contains(path),
    decreases mounts.len(),
{
    let before = inspect::foreign_scopes(names, mounts.drop_last(), roots, boot);
    let own = scan_resume::commons(
        namespace::visible(names.firmlinks@, mounts.last().path@),
        roots,
    );
    selection::lemma_in_either(before, own, path);
    if i < mounts.len() - 1 {
        lemma_foreign(names, mounts.drop_last(), roots, boot, i, path);
    }
}

proof fn lemma_scoped(names: HostNames, list: Seq<Seq<char>>, path: Seq<char>)
    requires
        list.contains(path),
    ensures
        namespace::covered(selection::scopes_of(names, list), selection::scope_of(names, path)),
{
    let marks = Marks { recursive: list, metadata: Seq::empty(), checks: Seq::empty() };
    scanner::laws::law_plans_keep_every_mark(names, marks, path);
}

/// What the event history does not tell of is scanned again: each gap of the index within the
/// roots, each root on another device than the boot volume, and of each mount of another device
/// what lies in a root.
pub proof fn law_places_without_history_are_scanned_again(
    inspection: Inspection,
    roots: Seq<Seq<char>>,
    uncovered: Seq<Seq<char>>,
    host: HostFacts,
    names: HostNames,
    allowed: spec_fn(Seq<char>) -> bool,
    ids: spec_fn(Seq<char>) -> Option<(u64, u64)>,
    readable: spec_fn(Seq<char>) -> bool,
    path: Seq<char>,
)
    requires
        inspect::finds(inspection, roots, uncovered, host, names, allowed, ids, readable),
        ({
            ||| uncovered.contains(path) && namespace::covered(roots, path)
                && namespace::in_namespace(path, roots)
            ||| roots.contains(path) && ids(path) is Some && (ids(path)->0).0 != host.boot_device
            ||| exists|i: int, j: int|
                0 <= i < host.mounts@.len() && 0 <= j < roots.len() && (
                #[trigger] host.mounts@[i]).device is Some && host.mounts@[i].device->0
                    != host.boot_device && namespace::in_namespace(
                    namespace::visible(names.firmlinks@, host.mounts@[i].path@),
                    roots,
                ) && {
                    let at = namespace::visible(names.firmlinks@, host.mounts@[i].path@);
                    let root = #[trigger] roots[j];
                    ||| paths::path_starts_with(at, root) && path == at
                    ||| paths::path_starts_with(root, at) && !paths::path_starts_with(at, root)
                        && path == root
                }
        }),
    ensures
        namespace::covered(
            text::texts(inspection.recheck_roots@),
            selection::scope_of(names, path),
        ),
{
    let list = inspect::probes(roots, uncovered, inspect::home_of(host));
    let gaps = traversal::authorized(uncovered, roots);
    let boot = host.boot_device;
    let elsewhere = |root: Seq<char>| inspect::is_foreign(ids, boot, root);
    let abroad = text::kept_texts(roots, elsewhere);
    let mounted = inspect::foreign_scopes(names, host.mounts@, roots, boot);
    let again = inspect::reopened(list, uncovered, allowed, readable);
    selection::lemma_in_either(gaps, abroad, path);
    selection::lemma_in_either(gaps + abroad, mounted, path);
    selection::lemma_in_either(gaps + abroad + mounted, again, path);
    if uncovered.contains(path) && namespace::covered(roots, path) && namespace::in_namespace(
        path,
        roots,
    ) {
        lemma_authorized(uncovered, roots, path);
    } else if roots.contains(path) && ids(path) is Some && (ids(path)->0).0 != boot {
        engine::laws::lemma_kept(roots, elsewhere, path);
    } else {
        let (i, j) = choose|i: int, j: int|
            0 <= i < host.mounts@.len() && 0 <= j < roots.len() && (
            #[trigger] host.mounts@[i]).device is Some && host.mounts@[i].device->0
                != host.boot_device && namespace::in_namespace(
                namespace::visible(names.firmlinks@, host.mounts@[i].path@),
                roots,
            ) && {
                let at = namespace::visible(names.firmlinks@, host.mounts@[i].path@);
                let root = #[trigger] roots[j];
                ||| paths::path_starts_with(at, root) && path == at
                ||| paths::path_starts_with(root, at) && !paths::path_starts_with(at, root) && path
                    == root
            };
        let at = namespace::visible(names.firmlinks@, host.mounts@[i].path@);
        assert(scan_resume::common(at, roots[j]) == Some(path));
        engine::laws::lemma_commons(at, roots, path);
        lemma_foreign(names, host.mounts@, roots, boot, i, path);
    }
    lemma_scoped(names, gaps + abroad + mounted + again, path);
}

proof fn lemma_guarded(
    home: Seq<char>,
    names: Seq<Seq<char>>,
    roots: Seq<Seq<char>>,
    i: int,
)
    requires
        0 <= i < names.len(),
        inspect::touches(paths::path_join(home, names[i]), roots),
    ensures
        inspect::guarded_in(home, names, roots).contains(paths::path_join(home, names[i])),
    decreases names.len(),
{
    let before = inspect::guarded_in(home, names.drop_last(), roots);
    let path = paths::path_join(home, names[i]);
    let own = paths::path_join(home, names.last());
    assert(before.push(own) =~= before + seq![own]);
    selection::lemma_in_either(before, seq![own], path);
    if i < names.len() - 1 {
        lemma_guarded(home, names.drop_last(), roots, i);
    } else {
        assert(seq![own][0] == path);
    }
}

/// A proof notes whether each root, each gap within the roots, and each guarded directory of the
/// home directory that touches a root can be read, where it is on a mount that is indexed; and a
/// gap that can be read now is scanned again.
pub proof fn law_proofs_note_what_can_be_read(
    inspection: Inspection,
    roots: Seq<Seq<char>>,
    uncovered: Seq<Seq<char>>,
    host: HostFacts,
    names: HostNames,
    allowed: spec_fn(Seq<char>) -> bool,
    ids: spec_fn(Seq<char>) -> Option<(u64, u64)>,
    readable: spec_fn(Seq<char>) -> bool,
    path: Seq<char>,
    name: Seq<char>,
    j: int,
)
    requires
        inspect::finds(inspection, roots, uncovered, host, names, allowed, ids, readable),
        allowed(path),
        ({
            ||| roots.contains(path)
            ||| uncovered.contains(path) && namespace::covered(roots, path)
                && namespace::in_namespace(path, roots)
            ||| host.home is Some && path == paths::path_join(host.home->0@, name) && 0 <= j
                < roots.len() && (paths::path_starts_with(roots[j], path)
                || paths::path_starts_with(path, roots[j])) && (name == "Desktop"@ || name
                == "Documents"@ || name == "Downloads"@ || name == "Pictures"@ || name == "Movies"@
                || name == "Music"@ || name == "Library/Safari"@ || name == "Library/Mail"@ || name
                == "Library/Messages"@ || name == "Library/Calendars"@ || name
                == "Library/HomeKit"@ || name == "Library/Containers"@ || name
                == "Library/Group Containers"@ || name
                == "Library/Application Support/com.apple.TCC"@ || name
                == "Pictures/Photos Library.photoslibrary"@)
        }),
    ensures
        exists|k: int|
            0 <= k < inspection.proof.access@.len() && (
            #[trigger] inspection.proof.access@[k]).path@ == path
                && inspection.proof.access@[k].readable == readable(path),
        readable(path) && uncovered.contains(path) ==> namespace::covered(
            text::texts(inspection.recheck_roots@),
            selection::scope_of(names, path),
        ),
{
    let home = inspect::home_of(host);
    let gaps = traversal::authorized(uncovered, roots);
    let own = match home {
        Some(home) => inspect::guarded_in(home, inspect::guarded(), roots),
        None => Seq::empty(),
    };
    let all = roots + gaps + own;
    selection::lemma_in_either(roots, gaps, path);
    selection::lemma_in_either(roots + gaps, own, path);
    if roots.contains(path) {
    } else if uncovered.contains(path) && namespace::covered(roots, path)
        && namespace::in_namespace(path, roots) {
        lemma_authorized(uncovered, roots, path);
    } else {
        let list = inspect::guarded();
        assert(list.contains(name)) by {
            assert(list[0] == "Desktop"@ && list[1] == "Documents"@ && list[2] == "Downloads"@);
            assert(list[3] == "Pictures"@ && list[4] == "Movies"@ && list[5] == "Music"@);
            assert(list[6] == "Library/Safari"@ && list[7] == "Library/Mail"@);
            assert(list[8] == "Library/Messages"@ && list[9] == "Library/Calendars"@);
            assert(list[10] == "Library/HomeKit"@ && list[11] == "Library/Containers"@);
            assert(list[12] == "Library/Group Containers"@);
            assert(list[13] == "Library/Application Support/com.apple.TCC"@);
            assert(list[14] == "Pictures/Photos Library.photoslibrary"@);
        }
        let i = choose|i: int| 0 <= i < list.len() && list[i] == name;
        lemma_guarded(host.home->0@, list, roots, i);
    }
    assert(all.contains(path));
    text_order::lemma_sorted_exists(all);
    let list = inspect::probes(roots, uncovered, home);
    assert(list == text_order::sorted_distinct(all));
    assert(all.to_set().contains(path));
    assert(list.to_set().contains(path));
    assert(list.contains(path));
    engine::laws::lemma_kept(list, allowed, path);
    let kept = text::kept_texts(list, allowed);
    let k = choose|k: int| 0 <= k < kept.len() && kept[k] == path;
    let views = inspect::access_views(inspection.proof.access@);
    assert(views == inspect::probed(list, allowed, readable));
    assert(inspect::probed(list, allowed, readable).len() == kept.len());
    assert(views.len() == inspection.proof.access@.len());
    assert(views[k] == (path, readable(path)));
    assert(inspection.proof.access@[k].path@ == path);
    if readable(path) && uncovered.contains(path) {
        let boot = host.boot_device;
        let open = |path: Seq<char>| readable(path) && uncovered.contains(path);
        engine::laws::lemma_kept(kept, open, path);
        let abroad = text::kept_texts(
            roots,
            |root: Seq<char>| inspect::is_foreign(ids, boot, root),
        );
        let before = gaps + abroad + inspect::foreign_scopes(names, host.mounts@, roots, boot);
        let again = inspect::reopened(list, uncovered, allowed, readable);
        assert(again.contains(path));
        selection::lemma_in_either(before, again, path);
        lemma_scoped(names, before + again, path);
    }
}

} // verus!
