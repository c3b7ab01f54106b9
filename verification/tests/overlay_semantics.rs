//! Semantic properties of overlay resolution on hand-built listings:
//! precedence across the stack, tombstone masking, filter behaviour,
//! determinism, iteration order, and tolerance of unreadable directories.

use liboverdrop::DirEntry;
use liboverdrop::DirListing;
use liboverdrop::EntryKind;
use liboverdrop::OverdropConf;

fn entry(dir: &str, name: &str, kind: EntryKind) -> DirEntry {
    DirEntry {
        name: name.to_string(),
        path: format!("{}/{}", dir, name),
        kind,
    }
}

fn files(dir: &str, names: &[&str]) -> DirListing {
    DirListing {
        entries: Some(
            names
                .iter()
                .map(|n| entry(dir, n, EntryKind::RegularFile))
                .collect(),
        ),
    }
}

fn conf(dirs: &[&str]) -> OverdropConf {
    let bases: Vec<String> = dirs.iter().map(|d| d.to_string()).collect();
    OverdropConf::new(&bases, "conf.d")
}

#[test]
fn precedence_last_directory_wins() {
    let od = conf(&["vendor", "admin", "runtime"]);
    let listings = vec![
        files("vendor/conf.d", &["main.toml", "extra.toml"]),
        files("admin/conf.d", &["main.toml"]),
        files("runtime/conf.d", &["main.toml"]),
    ];
    let fragments = od.scan_unique_files(&listings, false, None);
    assert_eq!(
        fragments.get("main.toml").unwrap(),
        "runtime/conf.d/main.toml"
    );
    assert_eq!(
        fragments.get("extra.toml").unwrap(),
        "vendor/conf.d/extra.toml"
    );
    assert_eq!(fragments.len(), 2);
}

#[test]
fn masking_tombstone_removes_earlier_file() {
    let od = conf(&["vendor", "admin", "runtime"]);
    let listings = vec![
        files("vendor/conf.d", &["gone.toml", "kept.toml"]),
        DirListing {
            entries: Some(vec![entry("admin/conf.d", "gone.toml", EntryKind::NullLink)]),
        },
        files("runtime/conf.d", &[]),
    ];
    let fragments = od.scan_unique_files(&listings, false, None);
    assert!(fragments.get("gone.toml").is_none());
    assert!(fragments.get("kept.toml").is_some());
    assert_eq!(fragments.len(), 1);
}

#[test]
fn masking_later_file_restores_name() {
    let od = conf(&["vendor", "admin", "runtime"]);
    let listings = vec![
        files("vendor/conf.d", &["gone.toml"]),
        DirListing {
            entries: Some(vec![entry("admin/conf.d", "gone.toml", EntryKind::NullLink)]),
        },
        files("runtime/conf.d", &["gone.toml"]),
    ];
    let fragments = od.scan_unique_files(&listings, false, None);
    assert_eq!(
        fragments.get("gone.toml").unwrap(),
        "runtime/conf.d/gone.toml"
    );
}

#[test]
fn tombstone_alone_inserts_nothing() {
    let od = conf(&["vendor"]);
    let listings = vec![DirListing {
        entries: Some(vec![entry("vendor/conf.d", "absent.toml", EntryKind::NullLink)]),
    }];
    let fragments = od.scan_unique_files(&listings, false, None);
    assert!(fragments.get("absent.toml").is_none());
    assert_eq!(fragments.len(), 0);
}

#[test]
fn other_entries_have_no_effect() {
    let od = conf(&["vendor", "admin"]);
    let listings = vec![
        files("vendor/conf.d", &["main.toml"]),
        DirListing {
            entries: Some(vec![
                entry("admin/conf.d", "main.toml", EntryKind::Other),
                entry("admin/conf.d", "sub.toml", EntryKind::Other),
            ]),
        },
    ];
    let fragments = od.scan_unique_files(&listings, false, None);
    assert_eq!(
        fragments.get("main.toml").unwrap(),
        "vendor/conf.d/main.toml"
    );
    assert!(fragments.get("sub.toml").is_none());
}

#[test]
fn hidden_filter_removes_only_hidden_names() {
    let od = conf(&["etc"]);
    let listings = vec![files("etc/conf.d", &[".secret.toml", "plain.toml"])];

    let with_hidden = od.scan_unique_files(&listings, true, None);
    let without_hidden = od.scan_unique_files(&listings, false, None);

    assert!(with_hidden.get(".secret.toml").is_some());
    assert!(without_hidden.get(".secret.toml").is_none());

    // Everything resolved without hidden files is resolved identically with
    // them: disabling hidden names never adds or changes entries.
    for name in without_hidden.keys() {
        assert_eq!(
            without_hidden.get(name.as_str()).unwrap(),
            with_hidden.get(name.as_str()).unwrap()
        );
    }
    assert_eq!(without_hidden.len(), 1);
    assert_eq!(with_hidden.len(), 2);
}

#[test]
fn extension_filter_exactness() {
    let od = conf(&["etc"]);
    let listings = vec![files("etc/conf.d", &["a.toml", "a.conf", "a"])];
    let allowed = vec!["toml".to_string()];

    let restricted = od.scan_unique_files(&listings, false, Some(&allowed));
    assert!(restricted.get("a.toml").is_some());
    assert!(restricted.get("a.conf").is_none());
    assert!(restricted.get("a").is_none());

    let unrestricted = od.scan_unique_files(&listings, false, None);
    assert!(unrestricted.get("a.toml").is_some());
    assert!(unrestricted.get("a.conf").is_some());
    assert!(unrestricted.get("a").is_some());
}

#[test]
fn extension_is_text_after_final_dot() {
    let od = conf(&["etc"]);
    let listings = vec![files(
        "etc/conf.d",
        &["archive.tar.toml", ".hidden", ".hidden.toml"],
    )];
    let allowed = vec!["toml".to_string()];
    let fragments = od.scan_unique_files(&listings, true, Some(&allowed));

    // The extension is what follows the last dot.
    assert!(fragments.get("archive.tar.toml").is_some());
    // A leading dot marks a hidden file; it opens no extension of its own.
    assert!(fragments.get(".hidden").is_none());
    assert!(fragments.get(".hidden.toml").is_some());
}

#[test]
fn resolve_is_deterministic() {
    let od = conf(&["vendor", "etc"]);
    let listings = vec![
        files("vendor/conf.d", &["b.toml", "a.toml"]),
        files("etc/conf.d", &["c.toml", "a.toml"]),
    ];
    let first = od.scan_unique_files(&listings, false, None);
    let second = od.scan_unique_files(&listings, false, None);

    assert_eq!(first.keys(), second.keys());
    for name in first.keys() {
        assert_eq!(
            first.get(name.as_str()).unwrap(),
            second.get(name.as_str()).unwrap()
        );
    }
}

#[test]
fn iteration_is_sorted_by_filename() {
    let od = conf(&["vendor", "etc"]);
    let listings = vec![
        files("vendor/conf.d", &["20-b.toml", "00-z.toml"]),
        files("etc/conf.d", &["10-a.toml", "05-m.toml"]),
    ];
    let fragments = od.scan_unique_files(&listings, false, None);
    let keys = fragments.keys();
    assert_eq!(
        keys,
        vec![
            "00-z.toml".to_string(),
            "05-m.toml".to_string(),
            "10-a.toml".to_string(),
            "20-b.toml".to_string(),
        ]
    );
    for w in keys.windows(2) {
        assert!(w[0] < w[1]);
    }
}

#[test]
fn missing_directory_is_skipped() {
    let od = conf(&["vendor", "missing", "etc"]);
    let listings = vec![
        files("vendor/conf.d", &["a.toml"]),
        DirListing { entries: None },
        files("etc/conf.d", &["b.toml"]),
    ];
    let fragments = od.scan_unique_files(&listings, false, None);
    assert!(fragments.get("a.toml").is_some());
    assert!(fragments.get("b.toml").is_some());
    assert_eq!(fragments.len(), 2);
}

#[test]
fn empty_stack_yields_empty_mapping() {
    let od = conf(&[]);
    let listings: Vec<DirListing> = vec![];
    let fragments = od.scan_unique_files(&listings, false, None);
    assert_eq!(fragments.len(), 0);
    assert_eq!(fragments.keys(), Vec::<String>::new());
}

#[test]
fn fragments_expose_names_and_paths_in_order() {
    let od = conf(&["etc"]);
    let listings = vec![files("etc/conf.d", &["b.toml", "a.toml"])];
    let fragments = od.scan_unique_files(&listings, false, None);
    let all = fragments.fragments();
    assert_eq!(all.len(), 2);
    assert_eq!(all[0].name, "a.toml");
    assert_eq!(all[0].path, "etc/conf.d/a.toml");
    assert_eq!(all[1].name, "b.toml");
    assert_eq!(all[1].path, "etc/conf.d/b.toml");
}

#[test]
fn stack_paths_are_joined_in_order() {
    let bases = vec!["usr/lib".to_string(), "etc/".to_string(), "".to_string()];
    let od = OverdropConf::new(&bases, "app/conf.d");
    let dirs = od.dirs();
    assert_eq!(dirs.len(), 3);
    assert_eq!(dirs[0], "usr/lib/app/conf.d");
    assert_eq!(dirs[1], "etc/app/conf.d");
    assert_eq!(dirs[2], "app/conf.d");
}

#[test]
fn stack_paths_with_root_and_version() {
    let bases = vec!["usr/lib".to_string(), "etc".to_string()];
    let od = OverdropConf::new_full("/root", &bases, "app/conf.d-", Some("v2".to_string()));
    let dirs = od.dirs();
    assert_eq!(dirs.len(), 2);
    assert_eq!(dirs[0], "/root/usr/lib/app/conf.d-v2");
    assert_eq!(dirs[1], "/root/etc/app/conf.d-v2");

    let od_plain = OverdropConf::new_full("/root", &bases, "app/conf.d", None);
    let dirs_plain = od_plain.dirs();
    assert_eq!(dirs_plain[0], "/root/usr/lib/app/conf.d");
    assert_eq!(dirs_plain[1], "/root/etc/app/conf.d");
}
