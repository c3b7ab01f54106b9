//! The classic drop-in fixture: a `tree-basic` hierarchy with `usr/lib`,
//! `run` and `etc` layers holding distinct and overlapping fragment files.
//! Each test builds the listings in memory, mirroring that tree, and resolves
//! them through the verified scan.

use liboverdrop::DirEntry;
use liboverdrop::DirListing;
use liboverdrop::EntryKind;
use liboverdrop::OverdropConf;
use liboverdrop::ResolvedOverlay;

fn file_entry(dir: &str, name: &str) -> DirEntry {
    DirEntry {
        name: name.to_string(),
        path: format!("{}/{}", dir, name),
        kind: EntryKind::RegularFile,
    }
}

fn listing(dir: &str, names: &[&str]) -> DirListing {
    DirListing {
        entries: Some(names.iter().map(|n| file_entry(dir, n)).collect()),
    }
}

/// The in-memory image of the `tree-basic` fixture: what each layer's
/// drop-in directory holds.
fn fixture_listing(dir: &str) -> DirListing {
    let names: &[&str] = if dir.contains("/usr/lib/") {
        &[
            "01-config-a.toml",
            "02-config-b.toml",
            "03-config-c.toml",
            "04-config-d.toml",
        ]
    } else if dir.contains("/run/") {
        &["02-config-b.toml", "06-config-f.toml"]
    } else if dir.contains("/etc/") {
        &[
            "01-config-a.toml",
            "03-config-c.toml",
            "05-config-e.toml",
            "07-config-g.toml",
            "08-config-h.conf",
            "config.conf",
            "noextension",
            ".hidden.conf",
        ]
    } else {
        &[]
    };
    listing(dir, names)
}

fn fixture_listings(od_cfg: &OverdropConf) -> Vec<DirListing> {
    od_cfg.dirs().iter().map(|d| fixture_listing(d)).collect()
}

fn assert_fragments_relpath_match(
    fragments: &ResolvedOverlay,
    root_dir: &str,
    filename: &str,
    relpath: &str,
) {
    let full = format!("{}/{}", root_dir, relpath);
    assert_eq!(fragments.get(filename).unwrap(), &full);
}

fn assert_fragments_hit(fragments: &ResolvedOverlay, filename: &str) {
    assert!(fragments.get(filename).is_some());
}

fn assert_fragments_miss(fragments: &ResolvedOverlay, filename: &str) {
    assert!(fragments.get(filename).is_none());
}

#[test]
fn basic_override() {
    let treedir = "tests/fixtures/tree-basic";
    let dirs = vec![
        format!("{}/{}", treedir, "usr/lib"),
        format!("{}/{}", treedir, "run"),
        format!("{}/{}", treedir, "etc"),
    ];
    let allowed_extensions = vec!["toml".to_string()];
    let expected_keys = vec![
        "01-config-a.toml".to_string(),
        "02-config-b.toml".to_string(),
        "03-config-c.toml".to_string(),
        "04-config-d.toml".to_string(),
        "05-config-e.toml".to_string(),
        "06-config-f.toml".to_string(),
        "07-config-g.toml".to_string(),
    ];

    let od_cfg = OverdropConf::new(&dirs, "liboverdrop-rs/config.d-v0.1.0");
    let listings = fixture_listings(&od_cfg);
    let fragments = od_cfg.scan_unique_files(&listings, false, Some(&allowed_extensions));

    assert_fragments_relpath_match(
        &fragments,
        treedir,
        "01-config-a.toml",
        "etc/liboverdrop-rs/config.d-v0.1.0/01-config-a.toml",
    );
    assert_fragments_relpath_match(
        &fragments,
        treedir,
        "02-config-b.toml",
        "run/liboverdrop-rs/config.d-v0.1.0/02-config-b.toml",
    );
    assert_fragments_relpath_match(
        &fragments,
        treedir,
        "03-config-c.toml",
        "etc/liboverdrop-rs/config.d-v0.1.0/03-config-c.toml",
    );
    assert_fragments_relpath_match(
        &fragments,
        treedir,
        "04-config-d.toml",
        "usr/lib/liboverdrop-rs/config.d-v0.1.0/04-config-d.toml",
    );
    assert_fragments_relpath_match(
        &fragments,
        treedir,
        "05-config-e.toml",
        "etc/liboverdrop-rs/config.d-v0.1.0/05-config-e.toml",
    );
    assert_fragments_relpath_match(
        &fragments,
        treedir,
        "06-config-f.toml",
        "run/liboverdrop-rs/config.d-v0.1.0/06-config-f.toml",
    );
    assert_fragments_relpath_match(
        &fragments,
        treedir,
        "07-config-g.toml",
        "etc/liboverdrop-rs/config.d-v0.1.0/07-config-g.toml",
    );

    let fragments_keys: Vec<String> = fragments.keys();
    assert_eq!(fragments_keys, expected_keys);
}

#[test]
fn basic_override_new_full() {
    let treedir = "tests/fixtures/tree-basic";
    let dirs = vec![
        "usr/lib".to_string(),
        "run".to_string(),
        "etc".to_string(),
    ];
    let config_path = "liboverdrop-rs/config.d-";
    let version = Some("v0.1.0".to_string());
    let allowed_extensions = vec!["toml".to_string()];
    let expected_keys = vec![
        "01-config-a.toml".to_string(),
        "02-config-b.toml".to_string(),
        "03-config-c.toml".to_string(),
        "04-config-d.toml".to_string(),
        "05-config-e.toml".to_string(),
        "06-config-f.toml".to_string(),
        "07-config-g.toml".to_string(),
    ];

    let od_cfg = OverdropConf::new_full(treedir, &dirs, config_path, version);
    let listings = fixture_listings(&od_cfg);
    let fragments = od_cfg.scan_unique_files(&listings, false, Some(&allowed_extensions));

    assert_fragments_relpath_match(
        &fragments,
        treedir,
        "01-config-a.toml",
        "etc/liboverdrop-rs/config.d-v0.1.0/01-config-a.toml",
    );
    assert_fragments_relpath_match(
        &fragments,
        treedir,
        "02-config-b.toml",
        "run/liboverdrop-rs/config.d-v0.1.0/02-config-b.toml",
    );
    assert_fragments_relpath_match(
        &fragments,
        treedir,
        "03-config-c.toml",
        "etc/liboverdrop-rs/config.d-v0.1.0/03-config-c.toml",
    );
    assert_fragments_relpath_match(
        &fragments,
        treedir,
        "04-config-d.toml",
        "usr/lib/liboverdrop-rs/config.d-v0.1.0/04-config-d.toml",
    );
    assert_fragments_relpath_match(
        &fragments,
        treedir,
        "05-config-e.toml",
        "etc/liboverdrop-rs/config.d-v0.1.0/05-config-e.toml",
    );
    assert_fragments_relpath_match(
        &fragments,
        treedir,
        "06-config-f.toml",
        "run/liboverdrop-rs/config.d-v0.1.0/06-config-f.toml",
    );
    assert_fragments_relpath_match(
        &fragments,
        treedir,
        "07-config-g.toml",
        "etc/liboverdrop-rs/config.d-v0.1.0/07-config-g.toml",
    );

    let fragments_keys: Vec<String> = fragments.keys();
    assert_eq!(fragments_keys, expected_keys);
}

#[test]
fn basic_override_restrict_extensions() {
    let treedir = "tests/fixtures/tree-basic";
    let dirs = vec![format!("{}/{}", treedir, "etc")];
    let allowed_extensions = vec!["toml".to_string()];

    let od_cfg = OverdropConf::new(&dirs, "liboverdrop-rs/config.d-v0.1.0");
    let listings = fixture_listings(&od_cfg);
    let fragments = od_cfg.scan_unique_files(&listings, false, Some(&allowed_extensions));

    assert_fragments_hit(&fragments, "01-config-a.toml");
    assert_fragments_miss(&fragments, "08-config-h.conf");
    assert_fragments_miss(&fragments, "noextension");
}

#[test]
fn basic_override_allow_all_extensions() {
    let treedir = "tests/fixtures/tree-basic";
    let dirs = vec![format!("{}/{}", treedir, "etc")];

    let od_cfg = OverdropConf::new(&dirs, "liboverdrop-rs/config.d-v0.1.0");
    let listings = fixture_listings(&od_cfg);
    let fragments = od_cfg.scan_unique_files(&listings, false, None);

    assert_fragments_hit(&fragments, "01-config-a.toml");
    assert_fragments_hit(&fragments, "config.conf");
    assert_fragments_hit(&fragments, "noextension");
}

#[test]
fn basic_override_ignore_hidden() {
    let treedir = "tests/fixtures/tree-basic";
    let dirs = vec![format!("{}/{}", treedir, "etc")];

    let od_cfg = OverdropConf::new(&dirs, "liboverdrop-rs/config.d-v0.1.0");
    let listings = fixture_listings(&od_cfg);
    let fragments = od_cfg.scan_unique_files(&listings, false, None);

    assert_fragments_hit(&fragments, "config.conf");
    assert_fragments_miss(&fragments, ".hidden.conf");
}

#[test]
fn basic_override_allow_hidden() {
    let treedir = "tests/fixtures/tree-basic";
    let dirs = vec![format!("{}/{}", treedir, "etc")];

    let od_cfg = OverdropConf::new(&dirs, "liboverdrop-rs/config.d-v0.1.0");
    let listings = fixture_listings(&od_cfg);
    let fragments = od_cfg.scan_unique_files(&listings, true, None);

    assert_fragments_hit(&fragments, "config.conf");
    assert_fragments_hit(&fragments, ".hidden.conf");
}
