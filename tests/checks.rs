use checklfs::case_check::{case_collision_count, case_collisions, find_repeats, logical_paths};
use checklfs::lfs_check::{
    is_lfs_attr, is_oversized_lfs_blob, lfs_violation_count, lfs_violations, DEFAULT_SIZE_THRESHOLD,
};
use checklfs::meta_check::{
    is_ignored, is_sidecar, is_under_assets, meta_records, meta_statuses, sidecar_violation_count,
    sidecar_violations, MetaStatus,
};
use checklfs::summary::{check_tree, Summary};
use checklfs::tree::{ends_with, join_path, starts_with, Entry};

fn file(name: &str) -> Entry {
    Entry::Blob { name: Some(name.to_string()), size: 10, merge_attr: None }
}

fn lfs_file(name: &str, size: u64) -> Entry {
    Entry::Blob { name: Some(name.to_string()), size, merge_attr: Some("lfs".to_string()) }
}

fn dir(name: &str, children: Vec<Entry>) -> Entry {
    Entry::Dir { name: Some(name.to_string()), children }
}

fn assets(children: Vec<Entry>) -> Vec<Entry> {
    vec![dir("Assets", children)]
}

#[test]
fn paired_file_passes_all_checks() {
    let root = assets(vec![file("Foo.txt"), file("Foo.txt.meta")]);
    let s = check_tree(&root, DEFAULT_SIZE_THRESHOLD);
    assert_eq!(s, Summary { meta_errors: 0, case_errors: 0, lfs_errors: 0 });
    assert!(s.is_success());
    assert_eq!(s.exit_code(), 0);
}

#[test]
fn case_duplicates_counted_once() {
    let root = assets(vec![file("A.txt"), file("a.txt")]);
    let s = check_tree(&root, DEFAULT_SIZE_THRESHOLD);
    assert_eq!(s.case_errors, 1);
    assert_eq!(case_collisions(&root), vec!["Assets/a.txt".to_string()]);
    assert_eq!(s.lfs_errors, 0);
    // each file lacks its own sidecar, which is unrelated to the case clash
    assert_eq!(s.meta_errors, 2);
    assert_eq!(s.exit_code(), 1);
}

#[test]
fn missing_sidecar_and_inline_lfs_blob() {
    let root = assets(vec![lfs_file("Foo.txt", 500)]);
    let s = check_tree(&root, DEFAULT_SIZE_THRESHOLD);
    assert_eq!(s.meta_errors, 1);
    assert_eq!(s.lfs_errors, 1);
    assert_eq!(s.case_errors, 0);
    assert_eq!(s.total(), 2);
    assert!(!s.is_success());
    assert_eq!(s.exit_code(), 1);
    assert_eq!(
        sidecar_violations(&root),
        vec![("Assets/Foo.txt".to_string(), MetaStatus { has_content: true, has_sidecar: false })]
    );
    assert_eq!(lfs_violations(&root, DEFAULT_SIZE_THRESHOLD), vec![("Assets/Foo.txt".to_string(), 500)]);
}

#[test]
fn distinct_paths_have_no_collision() {
    let root = vec![dir("src", vec![file("a.rs"), file("b.rs")]), file("README.md"), file("src.txt")];
    assert_eq!(case_collision_count(&root), 0);
}

#[test]
fn three_paths_folding_together_count_two() {
    let root = vec![file("README"), file("readme"), file("ReadMe")];
    assert_eq!(case_collision_count(&root), 2);
    assert_eq!(case_collisions(&root), vec!["readme".to_string(), "ReadMe".to_string()]);
}

#[test]
fn directory_and_blob_collide() {
    let root = vec![dir("Foo", vec![file("x")]), file("foo")];
    assert_eq!(case_collision_count(&root), 1);
    assert_eq!(case_collisions(&root), vec!["foo".to_string()]);
}

#[test]
fn children_of_duplicated_directory_are_checked() {
    let root = vec![dir("Foo", vec![file("x")]), dir("FOO", vec![file("X")])];
    assert_eq!(case_collisions(&root), vec!["FOO".to_string(), "FOO/X".to_string()]);
}

#[test]
fn non_ascii_case_folding() {
    let root = vec![file("ÄRGER.txt"), file("ärger.txt")];
    assert_eq!(case_collision_count(&root), 1);
}

#[test]
fn logical_paths_in_pre_order() {
    let root = vec![dir("a", vec![dir("b", vec![file("c")]), file("d")]), file("e")];
    let expected: Vec<String> = ["a", "a/b", "a/b/c", "a/d", "e"].iter().map(|s| s.to_string()).collect();
    assert_eq!(logical_paths(&root), expected);
}

#[test]
fn repeats_follow_keys() {
    let paths: Vec<String> = ["X", "y", "x"].iter().map(|s| s.to_string()).collect();
    let keys: Vec<String> = ["k", "j", "k"].iter().map(|s| s.to_string()).collect();
    assert_eq!(find_repeats(&paths, &keys), vec!["x".to_string()]);
}

#[test]
fn unnamed_entry_is_skipped() {
    let root = vec![
        Entry::Dir { name: None, children: vec![file("a"), file("A")] },
        Entry::Blob { name: None, size: 1000, merge_attr: Some("lfs".to_string()) },
    ];
    assert_eq!(check_tree(&root, DEFAULT_SIZE_THRESHOLD), Summary { meta_errors: 0, case_errors: 0, lfs_errors: 0 });
}

#[test]
fn removing_content_or_sidecar_flips_to_violation() {
    let paired = assets(vec![file("Foo.txt"), file("Foo.txt.meta")]);
    assert_eq!(sidecar_violation_count(&paired), 0);
    let no_sidecar = assets(vec![file("Foo.txt")]);
    assert_eq!(sidecar_violation_count(&no_sidecar), 1);
    let orphan = assets(vec![file("Foo.txt.meta")]);
    assert_eq!(
        sidecar_violations(&orphan),
        vec![("Assets/Foo.txt".to_string(), MetaStatus { has_content: false, has_sidecar: true })]
    );
}

#[test]
fn directory_needs_its_sidecar() {
    let without = assets(vec![dir("Sub", vec![file("a.png"), file("a.png.meta")])]);
    assert_eq!(
        sidecar_violations(&without),
        vec![("Assets/Sub".to_string(), MetaStatus { has_content: true, has_sidecar: false })]
    );
    let with = assets(vec![dir("Sub", vec![file("a.png"), file("a.png.meta")]), file("Sub.meta")]);
    assert_eq!(sidecar_violation_count(&with), 0);
}

#[test]
fn hidden_and_backup_entries_are_ignored() {
    let root = assets(vec![
        file(".gitkeep"),
        file("Scene.unity~"),
        dir(".hidden", vec![file("a.txt"), dir("deep", vec![file("b.txt")])]),
        dir("Backup~", vec![file("c.txt")]),
    ]);
    assert_eq!(sidecar_violation_count(&root), 0);
    let recs = meta_records(&root);
    assert_eq!(recs, vec![("Assets".to_string(), false)]);
}

#[test]
fn outside_assets_is_not_checked() {
    let root = vec![file("README.md"), dir("Packages", vec![file("packages-lock.json")]), dir("Assets", vec![])];
    assert_eq!(sidecar_violation_count(&root), 0);
}

#[test]
fn meta_records_strip_suffix() {
    let root = vec![dir("Assets", vec![file("x.png.meta"), file("x.png")])];
    assert_eq!(
        meta_records(&root),
        vec![
            ("Assets/x.png".to_string(), true),
            ("Assets/x.png".to_string(), false),
            ("Assets".to_string(), false),
        ]
    );
}

#[test]
fn statuses_merge_flags() {
    let records = vec![
        ("Assets/a".to_string(), true),
        ("Assets/b".to_string(), false),
        ("Assets/a".to_string(), false),
    ];
    let (keys, sts) = meta_statuses(&records);
    assert_eq!(keys, vec!["Assets/a".to_string(), "Assets/b".to_string()]);
    assert_eq!(
        sts,
        vec![
            MetaStatus { has_content: true, has_sidecar: true },
            MetaStatus { has_content: true, has_sidecar: false },
        ]
    );
}

#[test]
fn meta_status_constructors() {
    assert_eq!(MetaStatus::file(), MetaStatus { has_content: true, has_sidecar: false });
    assert_eq!(MetaStatus::meta(), MetaStatus { has_content: false, has_sidecar: true });
}

#[test]
fn name_rules() {
    assert!(is_ignored(".git"));
    assert!(is_ignored("file~"));
    assert!(!is_ignored("file.txt"));
    assert!(is_sidecar("a.meta"));
    assert!(!is_sidecar(".meta"));
    assert!(!is_sidecar("a.metadata"));
    assert!(is_under_assets("Assets/x"));
    assert!(!is_under_assets("Assets"));
    assert!(!is_under_assets("Assets/"));
    assert!(!is_under_assets("AssetsX/y"));
    assert!(!is_under_assets("assets/x"));
}

#[test]
fn string_helpers() {
    assert!(starts_with("Assets/Foo", "Assets/"));
    assert!(!starts_with("Ass", "Assets/"));
    assert!(ends_with("a.meta", ".meta"));
    assert!(!ends_with("a.met", ".meta"));
    assert_eq!(join_path(&String::new(), &"a".to_string()), "a");
    assert_eq!(join_path(&"a/b".to_string(), &"c".to_string()), "a/b/c");
}

#[test]
fn lfs_threshold_edges() {
    assert_eq!(DEFAULT_SIZE_THRESHOLD, 150);
    let lfs = Some("lfs".to_string());
    assert!(!is_oversized_lfs_blob(&lfs, 149, DEFAULT_SIZE_THRESHOLD));
    assert!(is_oversized_lfs_blob(&lfs, 150, DEFAULT_SIZE_THRESHOLD));
    assert!(!is_oversized_lfs_blob(&Some("binary".to_string()), 1_000_000, DEFAULT_SIZE_THRESHOLD));
    assert!(!is_oversized_lfs_blob(&None, 1_000_000, DEFAULT_SIZE_THRESHOLD));
    assert!(is_lfs_attr(&lfs));
    assert!(!is_lfs_attr(&Some("lfsx".to_string())));
    assert!(!is_lfs_attr(&Some("LFS".to_string())));
}

#[test]
fn lfs_blobs_found_anywhere() {
    let root = vec![
        lfs_file("small.bin", 149),
        dir(".hidden", vec![lfs_file("big.bin", 150)]),
        Entry::Blob { name: Some("plain.bin".to_string()), size: 9000, merge_attr: Some("binary".to_string()) },
        Entry::Other { name: Some("submodule".to_string()) },
    ];
    assert_eq!(lfs_violation_count(&root, DEFAULT_SIZE_THRESHOLD), 1);
    assert_eq!(lfs_violations(&root, DEFAULT_SIZE_THRESHOLD), vec![(".hidden/big.bin".to_string(), 150)]);
    assert_eq!(lfs_violation_count(&root, 100), 2);
}
