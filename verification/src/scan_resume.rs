//! Whether a stored index can be brought up to date from the host's event history.
//!
//! A proof taken when an index was current is held against one taken now. The history is usable
//! while the boot, the journal and the chosen roots are the same; mounts and access that changed
//! only make the scopes that they touch be scanned again.
pub mod inspect;
pub mod laws;

use crate::paths;
use crate::paths::starts_with;
use crate::scanner::namespace;
use crate::scanner::namespace::{path_in_namespace, HostNames, PathScopes};
use crate::scanner::selection;
use crate::scanner::selection::normalize_scopes;
use crate::text;
use crate::text::{append_texts, copy_texts, keep_texts, same_text};
use vstd::prelude::*;

verus! {

/// A filesystem on a disk of this machine.
pub const MNT_LOCAL: u32 = 0x1000;

/// A filesystem that ignores who owns its files.
pub const MNT_IGNORE_OWNERSHIP: u32 = 0x0020_0000;

/// A frozen image of a filesystem.
pub const MNT_SNAPSHOT: u32 = 0x4000_0000;

/// The mount flags on which it depends whether a mount is indexed.
pub const RELEVANT_FLAGS: u32 = 0x4020_1000;

pub const PROOF_VERSION: u32 = 1;

/// A chosen root with the object that it names.
#[derive(Clone, Debug)]
pub struct RootIdentity {
    pub path: String,
    pub device: u64,
    pub inode: u64,
}

/// A mounted filesystem.
#[derive(Clone, Debug)]
pub struct MountRecord {
    pub path: String,
    pub source: String,
    pub flags: u32,
}

/// The kind of a mounted filesystem.
#[derive(Clone, Debug)]
pub struct MountType {
    pub path: String,
    pub kind: String,
}

/// Whether a directory could be read.
#[derive(Clone, Debug)]
pub struct Access {
    pub path: String,
    pub readable: bool,
}

/// What an index was made from.
#[derive(Clone, Debug)]
pub struct ResumeProof {
    pub version: u32,
    pub boot_session: String,
    pub journal_uuid: String,
    pub roots: Vec<RootIdentity>,
    pub mounts: Vec<MountRecord>,
    pub mount_types: Vec<MountType>,
    pub access: Vec<Access>,
}

pub open spec fn root_view(root: RootIdentity) -> (Seq<char>, u64, u64) {
    (root.path@, root.device, root.inode)
}

pub open spec fn root_views(roots: Seq<RootIdentity>) -> Seq<(Seq<char>, u64, u64)> {
    roots.map_values(|root: RootIdentity| root_view(root))
}

pub open spec fn root_paths(roots: Seq<RootIdentity>) -> Seq<Seq<char>> {
    roots.map_values(|root: RootIdentity| root.path@)
}

pub open spec fn mount_view(mount: MountRecord) -> (Seq<char>, Seq<char>, u32) {
    (mount.path@, mount.source@, mount.flags)
}

pub open spec fn type_view(kind: MountType) -> (Seq<char>, Seq<char>) {
    (kind.path@, kind.kind@)
}

pub open spec fn type_views(kinds: Seq<MountType>) -> Seq<(Seq<char>, Seq<char>)> {
    kinds.map_values(|kind: MountType| type_view(kind))
}

/// A mount without the flags that do not matter.
pub open spec fn essential(mount: MountRecord) -> (Seq<char>, Seq<char>, u32) {
    (mount.path@, mount.source@, mount.flags & RELEVANT_FLAGS)
}

pub open spec fn essentials(mounts: Seq<MountRecord>) -> Seq<(Seq<char>, Seq<char>, u32)> {
    mounts.map_values(|mount: MountRecord| essential(mount))
}

/// Why the event history does not lead from one proof to another.
pub open spec fn rejection(before: ResumeProof, now: ResumeProof) -> Option<Seq<char>> {
    if before.version != now.version {
        Some("proof_version_changed"@)
    } else if before.boot_session@ != now.boot_session@ {
        Some("boot_session_changed"@)
    } else if before.journal_uuid@ != now.journal_uuid@ {
        Some("journal_identity_changed"@)
    } else if root_views(before.roots@) != root_views(now.roots@) {
        Some("root_configuration_or_identity_changed"@)
    } else {
        None
    }
}

/// The mounts are those of another proof, but for flags that do not matter.
pub open spec fn same_mounts(a: ResumeProof, b: ResumeProof) -> bool {
    rejection(a, b) is None && type_views(a.mount_types@) == type_views(b.mount_types@)
        && essentials(a.mounts@) == essentials(b.mounts@)
}

fn same_roots(a: &Vec<RootIdentity>, b: &Vec<RootIdentity>) -> (same: bool)
    ensures
        same == (root_views(a@) == root_views(b@)),
{
    let ghost (left, right) = (root_views(a@), root_views(b@));
    if a.len() != b.len() {
        assert(left.len() != right.len());
        return false;
    }
    let mut next: usize = 0;
    while next < a.len()
        invariant
            next <= a@.len(),
            a@.len() == b@.len(),
            left == root_views(a@),
            right == root_views(b@),
            forall|i: int| 0 <= i < next ==> #[trigger] left[i] == right[i],
        decreases a@.len() - next,
    {
        let same = same_text(a[next].path.as_str(), b[next].path.as_str()) && a[next].device
            == b[next].device && a[next].inode == b[next].inode;
        if !same {
            assert(left[next as int] != right[next as int]);
            return false;
        }
        next = next + 1;
    }
    assert(left =~= right);
    true
}

fn same_types(a: &Vec<MountType>, b: &Vec<MountType>) -> (same: bool)
    ensures
        same == (type_views(a@) == type_views(b@)),
{
    let ghost (left, right) = (type_views(a@), type_views(b@));
    if a.len() != b.len() {
        assert(left.len() != right.len());
        return false;
    }
    let mut next: usize = 0;
    while next < a.len()
        invariant
            next <= a@.len(),
            a@.len() == b@.len(),
            left == type_views(a@),
            right == type_views(b@),
            forall|i: int| 0 <= i < next ==> #[trigger] left[i] == right[i],
        decreases a@.len() - next,
    {
        let same = same_text(a[next].path.as_str(), b[next].path.as_str()) && same_text(
            a[next].kind.as_str(),
            b[next].kind.as_str(),
        );
        if !same {
            assert(left[next as int] != right[next as int]);
            return false;
        }
        next = next + 1;
    }
    assert(left =~= right);
    true
}

fn same_essentials(a: &Vec<MountRecord>, b: &Vec<MountRecord>) -> (same: bool)
    ensures
        same == (essentials(a@) == essentials(b@)),
{
    let ghost (left, right) = (essentials(a@), essentials(b@));
    if a.len() != b.len() {
        assert(left.len() != right.len());
        return false;
    }
    let mut next: usize = 0;
    while next < a.len()
        invariant
            next <= a@.len(),
            a@.len() == b@.len(),
            left == essentials(a@),
            right == essentials(b@),
            forall|i: int| 0 <= i < next ==> #[trigger] left[i] == right[i],
        decreases a@.len() - next,
    {
        let same = same_text(a[next].path.as_str(), b[next].path.as_str()) && same_text(
            a[next].source.as_str(),
            b[next].source.as_str(),
        ) && a[next].flags & RELEVANT_FLAGS == b[next].flags & RELEVANT_FLAGS;
        if !same {
            assert(left[next as int] != right[next as int]);
            return false;
        }
        next = next + 1;
    }
    assert(left =~= right);
    true
}

impl ResumeProof {
    /// Why the event history does not lead from this proof to another.
    pub fn rejection_reason(&self, other: &ResumeProof) -> (reason: Option<&'static str>)
        ensures
            match rejection(*self, *other) {
                Some(text) => reason matches Some(said) && said@ == text,
                None => reason is None,
            },
    {
        if self.version != other.version {
            Some("proof_version_changed")
        } else if !same_text(self.boot_session.as_str(), other.boot_session.as_str()) {
            Some("boot_session_changed")
        } else if !same_text(self.journal_uuid.as_str(), other.journal_uuid.as_str()) {
            Some("journal_identity_changed")
        } else if !same_roots(&self.roots, &other.roots) {
            Some("root_configuration_or_identity_changed")
        } else {
            None
        }
    }

    pub fn same_namespace(&self, other: &ResumeProof) -> (same: bool)
        ensures
            same == (rejection(*self, *other) is None),
    {
        self.rejection_reason(other).is_none()
    }

    /// A completed baseline may take old mount events as done only while the mounts are still
    /// those that it saw. Access and incidental mount flags do not make another mount.
    pub fn same_mount_namespace(&self, other: &ResumeProof) -> (same: bool)
        ensures
            same == same_mounts(*self, *other),
    {
        self.same_namespace(other) && same_types(&self.mount_types, &other.mount_types)
            && same_essentials(&self.mounts, &other.mounts)
    }
}

/// A proof taken now, with the scopes that the event history says nothing of.
#[derive(Debug)]
pub struct Inspection {
    pub proof: ResumeProof,
    pub recheck_roots: Vec<String>,
}

/// Whether a path could be read, by the last probe of it.
pub open spec fn access_of(access: Seq<Access>, path: Seq<char>) -> Option<bool>
    decreases access.len(),
{
    if access.len() == 0 {
        None
    } else if access.last().path@ == path {
        Some(access.last().readable)
    } else {
        access_of(access.drop_last(), path)
    }
}

/// What is mounted at a path.
pub open spec fn mounted_at(mounts: Seq<MountRecord>, path: Seq<char>) -> Option<(Seq<char>, u32)>
    decreases mounts.len(),
{
    if mounts.len() == 0 {
        None
    } else if mounts.last().path@ == path {
        Some((mounts.last().source@, mounts.last().flags & RELEVANT_FLAGS))
    } else {
        mounted_at(mounts.drop_last(), path)
    }
}

/// What kind of filesystem is mounted at a path.
pub open spec fn type_at(kinds: Seq<MountType>, path: Seq<char>) -> Option<Seq<char>>
    decreases kinds.len(),
{
    if kinds.len() == 0 {
        None
    } else if kinds.last().path@ == path {
        Some(kinds.last().kind@)
    } else {
        type_at(kinds.drop_last(), path)
    }
}

fn find_access(access: &Vec<Access>, path: &str) -> (found: Option<bool>)
    ensures
        found == access_of(access@, path@),
{
    let mut left = access.len();
    assert(access@.take(left as int) =~= access@);
    while left > 0
        invariant
            left <= access@.len(),
            access_of(access@, path@) == access_of(access@.take(left as int), path@),
        decreases left,
    {
        let ghost part = access@.take(left as int);
        assert(part.drop_last() =~= access@.take(left - 1));
        left = left - 1;
        assert(part.last() == access@[left as int]);
        if same_text(access[left].path.as_str(), path) {
            return Some(access[left].readable);
        }
    }
    None
}

fn find_mount(mounts: &Vec<MountRecord>, path: &str) -> (found: Option<usize>)
    ensures
        match found {
            Some(i) => i < mounts@.len() && mounted_at(mounts@, path@) == Some(
                (mounts@[i as int].source@, mounts@[i as int].flags & RELEVANT_FLAGS),
            ),
            None => mounted_at(mounts@, path@) is None,
        },
{
    let mut left = mounts.len();
    assert(mounts@.take(left as int) =~= mounts@);
    while left > 0
        invariant
            left <= mounts@.len(),
            mounted_at(mounts@, path@) == mounted_at(mounts@.take(left as int), path@),
        decreases left,
    {
        let ghost part = mounts@.take(left as int);
        assert(part.drop_last() =~= mounts@.take(left - 1));
        left = left - 1;
        assert(part.last() == mounts@[left as int]);
        if same_text(mounts[left].path.as_str(), path) {
            return Some(left);
        }
    }
    None
}

fn find_type(kinds: &Vec<MountType>, path: &str) -> (found: Option<usize>)
    ensures
        match found {
            Some(i) => i < kinds@.len() && type_at(kinds@, path@) == Some(kinds@[i as int].kind@),
            None => type_at(kinds@, path@) is None,
        },
{
    let mut left = kinds.len();
    assert(kinds@.take(left as int) =~= kinds@);
    while left > 0
        invariant
            left <= kinds@.len(),
            type_at(kinds@, path@) == type_at(kinds@.take(left as int), path@),
        decreases left,
    {
        let ghost part = kinds@.take(left as int);
        assert(part.drop_last() =~= kinds@.take(left - 1));
        left = left - 1;
        assert(part.last() == kinds@[left as int]);
        if same_text(kinds[left].path.as_str(), path) {
            return Some(left);
        }
    }
    None
}

/// Whether a path can be read otherwise than it could before. A path that is no longer probed
/// is asked anew.
pub open spec fn access_changed(
    before: ResumeProof,
    now: ResumeProof,
    readable: spec_fn(Seq<char>) -> bool,
    path: Seq<char>,
) -> bool {
    let roots = root_paths(now.roots@);
    let current = match access_of(now.access@, path) {
        Some(known) => known,
        None => readable(path),
    };
    namespace::covered(roots, path) && namespace::in_namespace(path, roots) && access_of(
        before.access@,
        path,
    ) != Some(current)
}

pub open spec fn mount_changed(before: ResumeProof, now: ResumeProof, path: Seq<char>) -> bool {
    mounted_at(before.mounts@, path) != mounted_at(now.mounts@, path)
}

pub open spec fn type_changed(before: ResumeProof, now: ResumeProof, path: Seq<char>) -> bool {
    type_at(before.mount_types@, path) != type_at(now.mount_types@, path)
}

pub open spec fn access_paths(access: Seq<Access>) -> Seq<Seq<char>> {
    access.map_values(|one: Access| one.path@)
}

pub open spec fn mount_paths(mounts: Seq<MountRecord>) -> Seq<Seq<char>> {
    mounts.map_values(|one: MountRecord| one.path@)
}

pub open spec fn type_paths(kinds: Seq<MountType>) -> Seq<Seq<char>> {
    kinds.map_values(|one: MountType| one.path@)
}

/// Everything that changed between two proofs. Neither order nor repetition matters for what
/// is made of it.
pub open spec fn changes(
    inspection: Inspection,
    before: ResumeProof,
    readable: spec_fn(Seq<char>) -> bool,
) -> Seq<Seq<char>> {
    let now = inspection.proof;
    text::texts(inspection.recheck_roots@) + text::kept_texts(
        access_paths(before.access@) + access_paths(now.access@),
        |path: Seq<char>| access_changed(before, now, readable, path),
    ) + text::kept_texts(
        mount_paths(before.mounts@) + mount_paths(now.mounts@),
        |path: Seq<char>| mount_changed(before, now, path),
    ) + text::kept_texts(
        type_paths(now.mount_types@),
        |path: Seq<char>| type_changed(before, now, path),
    )
}

/// The part of a changed scope that a root has in common with it.
pub open spec fn common(changed: Seq<char>, root: Seq<char>) -> Option<Seq<char>> {
    if paths::path_starts_with(changed, root) {
        Some(changed)
    } else if paths::path_starts_with(root, changed) {
        Some(root)
    } else {
        None
    }
}

/// What a changed scope has in common with some roots.
pub open spec fn commons(changed: Seq<char>, roots: Seq<Seq<char>>) -> Seq<Seq<char>>
    decreases roots.len(),
{
    if roots.len() == 0 {
        roots
    } else {
        let before = commons(changed, roots.drop_last());
        match common(changed, roots.last()) {
            Some(path) => before.push(path),
            None => before,
        }
    }
}

/// What changed scopes of the namespace have in common with the roots.
pub open spec fn intersections(changed: Seq<Seq<char>>, roots: Seq<Seq<char>>) -> Seq<Seq<char>>
    decreases changed.len(),
{
    if changed.len() == 0 {
        changed
    } else {
        let before = intersections(changed.drop_last(), roots);
        if namespace::in_namespace(changed.last(), roots) {
            before + commons(changed.last(), roots)
        } else {
            before
        }
    }
}

pub(crate) fn add_commons(out: &mut Vec<String>, changed: &str, roots: &[String])
    ensures
        text::texts(final(out)@) == text::texts(old(out)@) + commons(
            changed@,
            text::texts(roots@),
        ),
{
    let ghost all = text::texts(roots@);
    let ghost first = text::texts(out@);
    let mut next: usize = 0;
    assert(first =~= first + commons(changed@, all.take(0)));
    while next < roots.len()
        invariant
            next <= roots@.len(),
            all == text::texts(roots@),
            text::texts(out@) == first + commons(changed@, all.take(next as int)),
        decreases roots@.len() - next,
    {
        let ghost part = all.take(next + 1);
        let ghost before = text::texts(out@);
        let root = roots[next].as_str();
        assert(part.drop_last() =~= all.take(next as int));
        assert(part.last() == root@);
        if starts_with(changed, root) {
            out.push(changed.to_owned());
            assert(text::texts(out@) =~= before.push(changed@));
        } else if starts_with(root, changed) {
            out.push(root.to_owned());
            assert(text::texts(out@) =~= before.push(root@));
        }
        assert(text::texts(out@) =~= first + commons(changed@, part));
        next = next + 1;
    }
    assert(all.take(next as int) =~= all);
}

fn intersect(changed: &Vec<String>, roots: &[String]) -> (out: Vec<String>)
    ensures
        text::texts(out@) == intersections(text::texts(changed@), text::texts(roots@)),
{
    let ghost all = text::texts(changed@);
    let ghost bounds = text::texts(roots@);
    let mut out: Vec<String> = Vec::new();
    let mut next: usize = 0;
    assert(text::texts(out@) =~= intersections(all.take(0), bounds));
    while next < changed.len()
        invariant
            next <= changed@.len(),
            all == text::texts(changed@),
            bounds == text::texts(roots@),
            text::texts(out@) == intersections(all.take(next as int), bounds),
        decreases changed@.len() - next,
    {
        let ghost part = all.take(next + 1);
        let path = changed[next].as_str();
        assert(part.drop_last() =~= all.take(next as int));
        assert(part.last() == path@);
        if path_in_namespace(path, roots) {
            add_commons(&mut out, path, roots);
        }
        next = next + 1;
    }
    assert(all.take(next as int) =~= all);
    out
}

fn paths_of_roots(roots: &Vec<RootIdentity>) -> (list: Vec<String>)
    ensures
        text::texts(list@) == root_paths(roots@),
{
    let mut list: Vec<String> = Vec::new();
    let mut next: usize = 0;
    while next < roots.len()
        invariant
            next <= roots@.len(),
            list@.len() == next,
            forall|i: int| 0 <= i < next ==> (#[trigger] list@[i])@ == roots@[i].path@,
        decreases roots@.len() - next,
    {
        list.push(roots[next].path.clone());
        next = next + 1;
    }
    assert(text::texts(list@) =~= root_paths(roots@));
    list
}

fn paths_of_access(first: &Vec<Access>, second: &Vec<Access>) -> (list: Vec<String>)
    ensures
        text::texts(list@) == access_paths(first@) + access_paths(second@),
{
    let ghost count = first@.len();
    let mut list: Vec<String> = Vec::new();
    let mut next: usize = 0;
    while next < first.len()
        invariant
            next <= first@.len(),
            list@.len() == next,
            forall|i: int| 0 <= i < next ==> (#[trigger] list@[i])@ == first@[i].path@,
        decreases first@.len() - next,
    {
        list.push(first[next].path.clone());
        next = next + 1;
    }
    let mut more: usize = 0;
    while more < second.len()
        invariant
            more <= second@.len(),
            count == first@.len(),
            list@.len() == count + more,
            forall|i: int| 0 <= i < count ==> (#[trigger] list@[i])@ == first@[i].path@,
            forall|i: int|
                count <= i < list@.len() ==> (#[trigger] list@[i])@ == second@[i - count].path@,
        decreases second@.len() - more,
    {
        list.push(second[more].path.clone());
        more = more + 1;
    }
    assert(text::texts(list@) =~= access_paths(first@) + access_paths(second@));
    list
}

fn paths_of_mounts(first: &Vec<MountRecord>, second: &Vec<MountRecord>) -> (list: Vec<String>)
    ensures
        text::texts(list@) == mount_paths(first@) + mount_paths(second@),
{
    let ghost count = first@.len();
    let mut list: Vec<String> = Vec::new();
    let mut next: usize = 0;
    while next < first.len()
        invariant
            next <= first@.len(),
            list@.len() == next,
            forall|i: int| 0 <= i < next ==> (#[trigger] list@[i])@ == first@[i].path@,
        decreases first@.len() - next,
    {
        list.push(first[next].path.clone());
        next = next + 1;
    }
    let mut more: usize = 0;
    while more < second.len()
        invariant
            more <= second@.len(),
            count == first@.len(),
            list@.len() == count + more,
            forall|i: int| 0 <= i < count ==> (#[trigger] list@[i])@ == first@[i].path@,
            forall|i: int|
                count <= i < list@.len() ==> (#[trigger] list@[i])@ == second@[i - count].path@,
        decreases second@.len() - more,
    {
        list.push(second[more].path.clone());
        more = more + 1;
    }
    assert(text::texts(list@) =~= mount_paths(first@) + mount_paths(second@));
    list
}

fn paths_of_types(kinds: &Vec<MountType>) -> (list: Vec<String>)
    ensures
        text::texts(list@) == type_paths(kinds@),
{
    let mut list: Vec<String> = Vec::new();
    let mut next: usize = 0;
    while next < kinds.len()
        invariant
            next <= kinds@.len(),
            list@.len() == next,
            forall|i: int| 0 <= i < next ==> (#[trigger] list@[i])@ == kinds@[i].path@,
        decreases kinds@.len() - next,
    {
        list.push(kinds[next].path.clone());
        next = next + 1;
    }
    assert(text::texts(list@) =~= type_paths(kinds@));
    list
}

fn mount_differs(before: &ResumeProof, now: &ResumeProof, path: &str) -> (differs: bool)
    ensures
        differs == mount_changed(*before, *now, path@),
{
    match (find_mount(&before.mounts, path), find_mount(&now.mounts, path)) {
        (Some(a), Some(b)) => !same_text(
            before.mounts[a].source.as_str(),
            now.mounts[b].source.as_str(),
        ) || before.mounts[a].flags & RELEVANT_FLAGS != now.mounts[b].flags & RELEVANT_FLAGS,
        (None, None) => false,
        _ => true,
    }
}

fn type_differs(before: &ResumeProof, now: &ResumeProof, path: &str) -> (differs: bool)
    ensures
        differs == type_changed(*before, *now, path@),
{
    match (find_type(&before.mount_types, path), find_type(&now.mount_types, path)) {
        (Some(a), Some(b)) => !same_text(
            before.mount_types[a].kind.as_str(),
            now.mount_types[b].kind.as_str(),
        ),
        (None, None) => false,
        _ => true,
    }
}

/// The paths of a list whose access changed.
fn changed_access<A: Fn(&str) -> bool>(
    list: &Vec<String>,
    before: &ResumeProof,
    now: &ResumeProof,
    configured: &[String],
    accessible: &A,
) -> (out: Vec<String>)
    requires
        text::texts(configured@) == root_paths(now.roots@),
        forall|p: &str| #[trigger] call_requires(*accessible, (p,)),
    ensures
        forall|r: spec_fn(Seq<char>) -> bool| #[trigger]
            selection::agrees(*accessible, r) ==> text::texts(out@) == text::kept_texts(
                text::texts(list@),
                |path: Seq<char>| access_changed(*before, *now, r, path),
            ),
{
    let ghost all = text::texts(list@);
    let selected = PathScopes::from_paths(configured);
    let mut out: Vec<String> = Vec::new();
    let mut next: usize = 0;
    proof {
        assert forall|r: spec_fn(Seq<char>) -> bool| #[trigger]
            selection::agrees(*accessible, r) implies text::texts(out@) == text::kept_texts(
            all.take(0),
            |path: Seq<char>| access_changed(*before, *now, r, path),
        ) by {
            assert(text::texts(out@) =~= text::kept_texts(
                all.take(0),
                |path: Seq<char>| access_changed(*before, *now, r, path),
            ));
        }
    }
    while next < list.len()
        invariant
            next <= list@.len(),
            all == text::texts(list@),
            text::texts(configured@) == root_paths(now.roots@),
            forall|path: Seq<char>| #[trigger]
                namespace::covered(selected@, path) == namespace::covered(
                    text::texts(configured@),
                    path,
                ),
            forall|p: &str| #[trigger] call_requires(*accessible, (p,)),
            forall|r: spec_fn(Seq<char>) -> bool| #[trigger]
                selection::agrees(*accessible, r) ==> text::texts(out@) == text::kept_texts(
                    all.take(next as int),
                    |path: Seq<char>| access_changed(*before, *now, r, path),
                ),
        decreases list@.len() - next,
    {
        let ghost part = all.take(next + 1);
        let ghost earlier = text::texts(out@);
        let path = list[next].as_str();
        assert(part.drop_last() =~= all.take(next as int));
        assert(part.last() == path@);
        let mut changed = false;
        if selected.covers(path) && path_in_namespace(path, configured) {
            let current = match find_access(&now.access, path) {
                Some(known) => known,
                None => accessible(path),
            };
            changed = match find_access(&before.access, path) {
                Some(known) => known != current,
                None => true,
            };
        }
        if changed {
            out.push(path.to_owned());
            assert(text::texts(out@) =~= earlier.push(path@));
        }
        proof {
            assert forall|r: spec_fn(Seq<char>) -> bool| #[trigger]
                selection::agrees(*accessible, r) implies text::texts(out@) == text::kept_texts(
                part,
                |p: Seq<char>| access_changed(*before, *now, r, p),
            ) by {
                let keep = |p: Seq<char>| access_changed(*before, *now, r, p);
                assert(earlier == text::kept_texts(all.take(next as int), keep));
                assert(keep(path@) == changed);
            }
        }
        next = next + 1;
    }
    assert(all.take(next as int) =~= all);
    out
}

impl Inspection {
    /// Changed access and mounts make the scopes that they have in common with the roots be
    /// scanned again; they do not invalidate the event history. `accessible` tells whether a
    /// path can be read now.
    pub fn recheck_against<A: Fn(&str) -> bool>(
        &self,
        previous: &ResumeProof,
        names: &HostNames,
        accessible: A,
    ) -> (scopes: Vec<String>)
        requires
            forall|p: &str| #[trigger] call_requires(accessible, (p,)),
        ensures
            forall|r: spec_fn(Seq<char>) -> bool| #[trigger]
                selection::agrees(accessible, r) ==> text::texts(scopes@) == selection::scopes_of(
                    *names,
                    intersections(changes(*self, *previous, r), root_paths(self.proof.roots@)),
                ),
    {
        let configured = paths_of_roots(&self.proof.roots);
        let mut recheck = copy_texts(self.recheck_roots.as_slice());
        let probed = paths_of_access(&previous.access, &self.proof.access);
        let touched = changed_access(
            &probed,
            previous,
            &self.proof,
            configured.as_slice(),
            &accessible,
        );
        append_texts(&mut recheck, touched);
        let ghost current = self.proof;
        let mounted = paths_of_mounts(&previous.mounts, &self.proof.mounts);
        let elsewhere = |path: &str| -> (differs: bool)
            ensures
                differs == mount_changed(*previous, self.proof, path@),
            { mount_differs(previous, &self.proof, path) };
        let moved = keep_texts(
            mounted.as_slice(),
            elsewhere,
            Ghost(|path: Seq<char>| mount_changed(*previous, current, path)),
        );
        append_texts(&mut recheck, moved);
        let kinds = paths_of_types(&self.proof.mount_types);
        let other = |path: &str| -> (differs: bool)
            ensures
                differs == type_changed(*previous, self.proof, path@),
            { type_differs(previous, &self.proof, path) };
        let turned = keep_texts(
            kinds.as_slice(),
            other,
            Ghost(|path: Seq<char>| type_changed(*previous, current, path)),
        );
        append_texts(&mut recheck, turned);
        let common = intersect(&recheck, configured.as_slice());
        proof {
            assert forall|r: spec_fn(Seq<char>) -> bool| #[trigger]
                selection::agrees(accessible, r) implies text::texts(recheck@) == changes(
                *self,
                *previous,
                r,
            ) by {}
        }
        normalize_scopes(common.as_slice(), names)
    }
}

proof fn lemma_probed(access: Seq<Access>, i: int)
    requires
        0 <= i < access.len(),
    ensures
        access_of(access, access[i].path@) is Some,
    decreases access.len(),
{
    if access.last().path@ != access[i].path@ {
        lemma_probed(access.drop_last(), i);
    }
}

proof fn lemma_none_kept(list: Seq<Seq<char>>, keep: spec_fn(Seq<char>) -> bool)
    requires
        forall|i: int| 0 <= i < list.len() ==> !keep(#[trigger] list[i]),
    ensures
        text::kept_texts(list, keep) == Seq::<Seq<char>>::empty(),
    decreases list.len(),
{
    if list.len() > 0 {
        lemma_none_kept(list.drop_last(), keep);
        assert(list.last() == list[list.len() - 1]);
    } else {
        assert(list =~= Seq::<Seq<char>>::empty());
    }
}

/// Where nothing is different and no scope is outside the event history, nothing is scanned
/// again.
pub proof fn law_the_same_host_needs_no_recheck(
    inspection: Inspection,
    readable: spec_fn(Seq<char>) -> bool,
)
    requires
        inspection.recheck_roots@.len() == 0,
    ensures
        rejection(inspection.proof, inspection.proof) is None,
        same_mounts(inspection.proof, inspection.proof),
        changes(inspection, inspection.proof, readable) == Seq::<Seq<char>>::empty(),
{
    let now = inspection.proof;
    let probed = access_paths(now.access@) + access_paths(now.access@);
    assert forall|i: int| 0 <= i < probed.len() implies !access_changed(
        now,
        now,
        readable,
        #[trigger] probed[i],
    ) by {
        let k = if i < now.access@.len() {
            i
        } else {
            i - now.access@.len()
        };
        assert(probed[i] == now.access@[k].path@);
        lemma_probed(now.access@, k);
    }
    lemma_none_kept(probed, |path: Seq<char>| access_changed(now, now, readable, path));
    lemma_none_kept(
        mount_paths(now.mounts@) + mount_paths(now.mounts@),
        |path: Seq<char>| mount_changed(now, now, path),
    );
    lemma_none_kept(
        type_paths(now.mount_types@),
        |path: Seq<char>| type_changed(now, now, path),
    );
    assert(changes(inspection, now, readable) =~= Seq::<Seq<char>>::empty());
}

} // verus!
