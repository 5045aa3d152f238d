use apfsearch_core::scan_resume::{
    Access, Inspection, MountRecord, MountType, ResumeProof, RootIdentity, MNT_LOCAL,
};
use apfsearch_core::scanner::namespace::HostNames;

const MNT_RDONLY: u32 = 0x1;
const MNT_NOEXEC: u32 = 0x4;

fn host() -> HostNames {
    HostNames {
        current_directory: "/".into(),
        firmlinks: Vec::new(),
        aliases: Vec::new(),
    }
}

fn mount(path: &str, source: &str, flags: u32) -> MountRecord {
    MountRecord {
        path: path.into(),
        source: source.into(),
        flags,
    }
}

fn kind(path: &str, kind: &str) -> MountType {
    MountType {
        path: path.into(),
        kind: kind.into(),
    }
}

fn access(path: &str, readable: bool) -> Access {
    Access {
        path: path.into(),
        readable,
    }
}

fn root(path: &str, device: u64, inode: u64) -> RootIdentity {
    RootIdentity {
        path: path.into(),
        device,
        inode,
    }
}

fn sample() -> ResumeProof {
    ResumeProof {
        version: 1,
        boot_session: "boot".into(),
        journal_uuid: "journal".into(),
        roots: vec![root("/fixture", 1, 2)],
        mounts: vec![mount("/", "/dev/disk1", MNT_LOCAL)],
        mount_types: vec![kind("/", "apfs")],
        access: vec![access("/fixture", true)],
    }
}

fn recheck(inspection: &Inspection, previous: &ResumeProof) -> Vec<String> {
    inspection.recheck_against(previous, &host(), |_| false)
}

#[test]
fn resume_scopes_do_not_expand_the_default_boot_namespace() {
    let mut before = sample();
    before.roots = vec![root("/", 1, 2)];
    before.access = vec![access("/System/Volumes/Preboot/denied", false)];
    before
        .mounts
        .push(mount("/System/Volumes/Preboot", "/dev/aux", MNT_LOCAL));
    let mut current = before.clone();
    current.access.clear();
    current.mounts.pop();
    let inspection = Inspection {
        proof: current,
        recheck_roots: vec![
            "/System/Volumes/Preboot".into(),
            "/Library/Developer/CoreSimulator/Volumes/runtime".into(),
        ],
    };
    assert!(before.same_namespace(&inspection.proof));
    assert_eq!(
        recheck(&inspection, &before),
        ["/Library/Developer/CoreSimulator/Volumes/runtime"]
    );
    assert!(inspection.proof.same_mount_namespace(&inspection.proof));
}

#[test]
fn historical_mount_consumption_requires_the_reconciled_mount_namespace() {
    let before = sample();
    assert!(before.same_mount_namespace(&before));
    let mut incidental = before.clone();
    incidental.access[0].readable = false;
    incidental.mounts[0].flags |= MNT_NOEXEC;
    assert!(before.same_mount_namespace(&incidental));
    for change in 0..6 {
        let mut different = before.clone();
        match change {
            0 => different.boot_session = "other-boot".into(),
            1 => different.journal_uuid = "other-journal".into(),
            2 => different.roots[0].inode += 1,
            3 => different.mounts[0].source = "/dev/disk2".into(),
            4 => different.mounts[0].flags ^= MNT_LOCAL,
            5 => different.mount_types[0].kind = "hfs".into(),
            _ => unreachable!(),
        }
        assert!(!before.same_mount_namespace(&different), "change={change}");
    }
    let mut mounted = before.clone();
    mounted.mounts.push(mount("/fixture/covered", "remote", 0));
    assert!(!before.same_mount_namespace(&mounted));
    assert!(!mounted.same_mount_namespace(&before));
}

#[test]
fn runtime_access_and_probe_set_changes_do_not_invalidate_history() {
    let before = sample();
    let mut current = before.clone();
    current.access.push(access("/fixture/new-gap", false));
    let inspection = Inspection {
        proof: current,
        recheck_roots: Vec::new(),
    };
    assert!(before.same_namespace(&inspection.proof));
    assert_eq!(
        inspection.recheck_against(&before, &host(), |_| true),
        ["/fixture/new-gap"]
    );
    let mut current = before.clone();
    current.access[0].readable = false;
    let inspection = Inspection {
        proof: current,
        recheck_roots: Vec::new(),
    };
    assert!(before.same_namespace(&inspection.proof));
    assert_eq!(recheck(&inspection, &before), ["/fixture"]);
}

#[test]
fn mount_add_remove_and_cover_changes_recheck_only_intersections() {
    let before = sample();
    let mut mounted = before.clone();
    mounted
        .mounts
        .push(mount("/fixture/mount", "smb://server/share", 0));
    let current = Inspection {
        proof: mounted.clone(),
        recheck_roots: Vec::new(),
    };
    assert!(before.same_namespace(&current.proof));
    assert_eq!(recheck(&current, &before), ["/fixture/mount"]);
    let unmounted = Inspection {
        proof: before,
        recheck_roots: Vec::new(),
    };
    assert_eq!(recheck(&unmounted, &mounted), ["/fixture/mount"]);
    // Reusing the same device name and flags must not conceal a type change.
    let mut old_type = mounted.clone();
    old_type.mount_types.push(kind("/fixture/mount", "apfs"));
    let mut new_type = old_type.clone();
    new_type.mount_types.last_mut().unwrap().kind = "hfs".into();
    let changed_type = Inspection {
        proof: new_type,
        recheck_roots: Vec::new(),
    };
    assert_eq!(recheck(&changed_type, &old_type), ["/fixture/mount"]);
}

#[test]
fn unrelated_mount_flags_do_not_rescan_the_root_namespace() {
    let before = sample();
    let mut current = before.clone();
    current.mounts[0].flags |= MNT_RDONLY | MNT_NOEXEC;
    let inspection = Inspection {
        proof: current,
        recheck_roots: Vec::new(),
    };
    assert!(before.same_namespace(&inspection.proof));
    assert!(recheck(&inspection, &before).is_empty());
}

#[test]
fn stable_history_anchor_mismatches_have_explicit_rejection_reasons() {
    let before = sample();
    let mut current = before.clone();
    current.boot_session = "other".into();
    assert_eq!(
        before.rejection_reason(&current),
        Some("boot_session_changed")
    );
    current = before.clone();
    current.journal_uuid = "other".into();
    assert_eq!(
        before.rejection_reason(&current),
        Some("journal_identity_changed")
    );
    current = before.clone();
    current.roots[0].inode += 1;
    assert_eq!(
        before.rejection_reason(&current),
        Some("root_configuration_or_identity_changed")
    );
    current = before.clone();
    current.version = 2;
    assert_eq!(
        before.rejection_reason(&current),
        Some("proof_version_changed")
    );
    assert_eq!(before.rejection_reason(&before), None);
}
