use apfsearch_core::scanner::firmlinks::read_firmlinks;
use apfsearch_core::scanner::namespace::{
    compact_roots, path_in_namespace, subtree_in_namespace, Alias, HostNames, PathScopes,
};
use apfsearch_core::scanner::presence::{entry_is_missing, scope_accessible, Presence};
use apfsearch_core::scanner::selection::{
    normalize_roots, normalize_roots_until, normalize_scopes, normalize_scopes_until,
};
use std::cell::Cell;
use std::path::Path;

fn naive_compact(mut roots: Vec<String>) -> Vec<String> {
    roots.sort();
    roots.dedup();
    let mut result: Vec<String> = Vec::new();
    for root in roots {
        if !result.iter().any(|parent| {
            Path::new(&root).starts_with(parent)
                && subtree_in_namespace(&root, std::slice::from_ref(parent))
        }) {
            result.push(root);
        }
    }
    result
}

fn strings(paths: &[&str]) -> Vec<String> {
    paths.iter().map(|path| (*path).into()).collect()
}

fn host() -> HostNames {
    let mut firmlinks = read_firmlinks("/Users\tUsers\n/usr/local\tusr/local\n");
    for link in &mut firmlinks {
        link.verified = true;
    }
    HostNames {
        current_directory: "/work".into(),
        firmlinks,
        aliases: vec![Alias {
            physical: "/private/var".into(),
            logical: "/var".into(),
        }],
    }
}

#[test]
fn compact_scopes_match_the_previous_algorithm_across_namespace_combinations() {
    let candidates = strings(&[
        "/",
        "/System",
        "/System/Volumes",
        "/System/Volumes/Data",
        "/System/Volumes/Data/usr",
        "/System/Volumes/Preboot/chosen",
        "/System/Volumes/Preboot/chosen/sub",
        "/System/Volumes/Preboot/other",
        "/Users",
        "/Users/example",
    ]);
    for mask in 0..(1usize << candidates.len()) {
        let paths: Vec<_> = candidates
            .iter()
            .enumerate()
            .filter(|(index, _)| mask & (1 << index) != 0)
            .map(|(_, path)| path.clone())
            .collect();
        assert_eq!(
            compact_roots(paths.clone(), || false).unwrap(),
            naive_compact(paths),
            "namespace subset {mask}"
        );
    }
}

#[test]
fn prefix_neighbors_never_hide_a_selected_parent_or_expand_its_scope() {
    let roots = strings(&["/a", "/a-0", "/a/child", "/aa/child", "/a-0/child"]);
    assert_eq!(
        compact_roots(roots, || false).unwrap(),
        strings(&["/a", "/a-0", "/aa/child"])
    );
    let scopes = PathScopes::from_paths(&strings(&["/a"]));
    assert!(scopes.covers("/a/child"));
    assert!(!scopes.covers("/a-0/child"));
    assert!(!scopes.covers("/aa/child"));
}

#[test]
fn path_component_equivalence_matches_starts_with_without_resolving_parent_segments() {
    let groups = [
        strings(&["/工作/./数据//", "/a/../b", "/other//child"]),
        strings(&["/", "/System/Volumes/Preboot/chosen"]),
        strings(&["relative/./root", "../parent", "."]),
    ];
    let queries = [
        "/工作/数据/file",
        "/工作/数据-old/file",
        "/工作//数据/../兄弟",
        "/a/../b/file",
        "/b/file",
        "/other/child/file",
        "/other/children",
        "/System/Volumes/Preboot/chosen/file",
        "relative/root/file",
        "../parent/file",
        "relative/rootish",
        "./relative/root",
        "",
    ];
    for roots in groups {
        let scopes = PathScopes::from_paths(&roots);
        for query in queries {
            let expected = roots.iter().any(|root| Path::new(query).starts_with(root));
            assert_eq!(
                scopes.covers(query),
                expected,
                "roots={roots:?}, query={query:?}"
            );
            assert_eq!(
                scopes.contains(query),
                roots.iter().any(|root| Path::new(query) == Path::new(root))
            );
        }
        assert_eq!(
            compact_roots(roots.clone(), || false).unwrap(),
            naive_compact(roots)
        );
    }
}

#[test]
fn ancestor_predicates_continue_past_a_rejected_match() {
    let scopes = PathScopes::from_paths(&strings(&["/", "/System", "/System/Volumes/Data"]));
    let path = "/System/Volumes/Data/usr";
    assert!(scopes.covers_where(path, |parent| Path::new(parent) == Path::new("/")));
    assert!(!scopes.covers_where(path, |parent| Path::new(parent) == Path::new("/Users")));
    assert!(scopes.covers_where(path, |parent| subtree_in_namespace(path, &[parent.into()])));
}

#[test]
fn normalization_cancellation_never_returns_a_partial_scope_set() {
    let roots: Vec<_> = (0..16)
        .map(|index| format!("/filesearch-cancel-fixture/{index}"))
        .collect();
    let names = host();
    let allows = |_: &str| true;
    let is_link = |_: &str| false;
    let find = |_: &str| -> Option<String> { None };
    assert!(compact_roots(roots.clone(), || true).is_none());
    assert!(normalize_roots_until(&roots, &names, allows, is_link, find, || true).is_none());
    let calls = Cell::new(0usize);
    assert!(compact_roots(roots.clone(), || {
        calls.set(calls.get() + 1);
        calls.get() >= 7
    })
    .is_none());
    assert_eq!(calls.get(), 7);
    let calls = Cell::new(0usize);
    assert!(
        normalize_roots_until(&roots, &names, allows, is_link, find, || {
            calls.set(calls.get() + 1);
            calls.get() >= 6
        })
        .is_none()
    );
    assert_eq!(calls.get(), 6);
    assert!(normalize_scopes_until(&roots, &names, || true).is_none());
}

#[test]
fn one_thousand_sibling_scopes_require_only_path_depth_probes() {
    let count = 1000usize;
    let roots: Vec<_> = (0..count)
        .map(|index| format!("/scope/sibling-{index:04}/item"))
        .collect();
    let scopes = PathScopes::from_paths(&roots);
    let mut probes = 0usize;
    for root in &roots {
        assert!(scopes.covers(&format!("{root}/child")));
        assert!(!scopes.covers(&format!("{root}-neighbor/child")));
        let below = scopes.search_up(&format!("{root}/child"), |_: &str| true);
        let beside = scopes.search_up(&format!("{root}-neighbor/child"), |_: &str| true);
        assert_eq!((below.found, below.levels), (true, 1));
        assert_eq!((beside.found, beside.levels), (false, 4));
        probes += (below.levels + 1) + (beside.levels + 1);
    }
    assert!(
        probes <= count * 8,
        "{probes} probes must depend on depth, not sibling count"
    );
    let mut naive_checks = 0usize;
    let mut selected: Vec<&String> = Vec::new();
    for root in &roots {
        assert!(!selected.iter().any(|parent| {
            naive_checks += 1;
            Path::new(root).starts_with(parent)
        }));
        selected.push(root);
    }
    assert_eq!(naive_checks, count * (count - 1) / 2);
    assert!(
        probes * 50 < naive_checks,
        "counted {probes} versus {naive_checks}"
    );
}

#[test]
fn a_list_of_firmlinks_keeps_longer_names_first_and_leaves_out_what_is_no_link() {
    let list = "/a b\n\n  /Users   Users \r\nno/root x\n/away ../x\n/rooted /x\n/only\n/usr/local usr/local\n/cores cores\n";
    let links = read_firmlinks(list);
    let names: Vec<_> = links
        .iter()
        .map(|link| (link.physical.as_str(), link.logical.as_str()))
        .collect();
    assert_eq!(
        names,
        vec![
            ("/System/Volumes/Data/usr/local", "/usr/local"),
            ("/System/Volumes/Data/Users", "/Users"),
            ("/System/Volumes/Data/cores", "/cores"),
            ("/System/Volumes/Data/b", "/a"),
        ]
    );
    assert!(links.iter().all(|link| !link.verified));
}

#[test]
fn relative_and_aliased_selections_become_physical_absolute_paths() {
    assert_eq!(
        normalize_scopes(&strings(&["sub", "/var/db"]), &host()),
        strings(&["/private/var/db", "/work/sub"])
    );
    assert_eq!(
        normalize_roots(
            &strings(&["/link"]),
            &host(),
            |_| true,
            |path| path == "/link",
            |path| if path == "/" { Some("/".into()) } else { None },
        ),
        strings(&["/link"])
    );
}

#[test]
fn only_a_readable_directory_above_proves_that_an_entry_is_gone() {
    let roots = strings(&["/chosen"]);
    let look = |path: &str| match path {
        "/chosen" => Presence::Readable,
        "/chosen/closed" => Presence::Closed,
        "/chosen/silent" => Presence::Unknown,
        "/chosen/file" => Presence::Other,
        _ => Presence::Missing,
    };
    assert!(entry_is_missing("/chosen/gone", &roots, look));
    assert!(entry_is_missing("/chosen/gone/deeper/still", &roots, look));
    assert!(!entry_is_missing("/chosen/closed/gone", &roots, look));
    assert!(!entry_is_missing("/chosen/silent/gone", &roots, look));
    assert!(!entry_is_missing("/chosen/file/gone", &roots, look));
    assert!(!entry_is_missing("/chosen/file", &roots, look));
    assert!(!entry_is_missing("/chosen", &roots, |_| Presence::Missing));
    assert!(!entry_is_missing("/other/gone", &roots, look));
    assert!(!entry_is_missing("/chosen/gone", &roots, |_| Presence::Missing));
    assert!(scope_accessible("/chosen", look));
    assert!(scope_accessible("/chosen/file", look));
    assert!(!scope_accessible("/chosen/closed", look));
    assert!(!scope_accessible("/chosen/gone", look));
}

#[test]
fn collapsed_roots_stay_as_they_are_and_do_not_absorb_each_other() {
    let roots = strings(&[
        "/a/b",
        "/System/Volumes/Data/x",
        "/a",
        "/System/Volumes",
        "/",
        "/a",
        "/System/Volumes/Preboot",
    ]);
    let once = compact_roots(roots.clone(), || false).unwrap();
    assert_eq!(once, ["/", "/System/Volumes"]);
    for root in &roots {
        assert!(once.iter().any(|kept| {
            Path::new(root).starts_with(kept)
                && subtree_in_namespace(root, std::slice::from_ref(kept))
        }));
    }
    assert_eq!(compact_roots(once.clone(), || false).unwrap(), once);
    assert!(!subtree_in_namespace("/System/Volumes", &strings(&["/"])));
    assert!(compact_roots(once, || true).is_none());
}

#[test]
fn a_tree_is_in_the_namespace_with_all_that_is_below_it() {
    let roots = strings(&["/", "/System/Volumes/Preboot/chosen"]);
    for (path, below, inside) in [
        ("/Users", "/Users/a/b", true),
        ("/System/Volumes/Data", "/System/Volumes/Data/a", true),
        ("/System/Volumes/Preboot", "/System/Volumes/Preboot/other", false),
        ("/System/Volumes/Preboot/chosen", "/System/Volumes/Preboot/chosen/a", true),
        ("/System/Volumes", "/System/Volumes/VM", false),
    ] {
        assert_eq!(subtree_in_namespace(path, &roots), inside, "{path}");
        assert_eq!(path_in_namespace(below, &roots), inside, "{below}");
    }
    assert!(subtree_in_namespace("/System", &roots));
    assert!(!path_in_namespace("/System/Volumes/VM", &roots));
}
