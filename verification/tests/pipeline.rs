use std::collections::HashMap;

use file_sorter::args::Args;
use file_sorter::ext::get_ext_map;
use file_sorter::plan::{get_dirs_to_create, get_name_pairs, new_path};
use file_sorter::scan::{classify_entries, DirEntries, RawEntry};
use file_sorter::strutil::join_path;

fn entry(name: &str, path: &str, is_dir: bool) -> RawEntry {
    RawEntry {
        name: String::from(name),
        path: String::from(path),
        is_dir,
    }
}

#[test]
fn test_classify_entries_splits_and_hides() {
    let entries = vec![
        entry("report.csv", "root/report.csv", false),
        entry(".git", "root/.git", true),
        entry("sub", "root/sub", true),
        entry(".secret", "root/.secret", false),
        entry("notes", "root/notes", false),
    ];
    let listing = classify_entries(String::from("root"), &entries);
    assert_eq!(listing.root, "root");
    assert_eq!(listing.dirs, vec![String::from("root/sub")]);
    assert_eq!(
        listing.files,
        vec![String::from("root/report.csv"), String::from("root/notes")]
    );
}

#[test]
fn test_scenario_mixed_extensions() {
    // root holds report.csv, data.CSV and extension-less notes: one _csv
    // group for both spellings, the sentinel group for notes, and a
    // directory for each group.
    let files = vec![
        String::from("docs/report.csv"),
        String::from("docs/data.CSV"),
        String::from("docs/notes"),
    ];
    let groups = get_ext_map(&files);
    let expected_groups = HashMap::from([
        (
            String::from("_csv"),
            vec![String::from("docs/report.csv"), String::from("docs/data.CSV")],
        ),
        (String::from("_no_ext"), vec![String::from("docs/notes")]),
    ]);
    let mut got_groups: HashMap<String, Vec<String>> = HashMap::new();
    for g in &groups.groups {
        got_groups.insert(g.key.clone(), g.files.clone());
    }
    assert_eq!(got_groups, expected_groups);

    let listing = DirEntries {
        root: String::from("docs"),
        dirs: vec![],
        files,
    };
    let dirs = get_dirs_to_create(&listing, &groups);
    assert_eq!(
        dirs,
        vec![String::from("docs/_csv"), String::from("docs/_no_ext")]
    );

    let pairs = get_name_pairs(groups, &listing.root);
    let as_map: HashMap<String, String> =
        pairs.into_iter().map(|r| (r.from, r.to)).collect();
    let expected_pairs = HashMap::from([
        (
            String::from("docs/report.csv"),
            String::from("docs/_csv/report.csv"),
        ),
        (
            String::from("docs/data.CSV"),
            String::from("docs/_csv/data.CSV"),
        ),
        (
            String::from("docs/notes"),
            String::from("docs/_no_ext/notes"),
        ),
    ]);
    assert_eq!(as_map, expected_pairs);
}

#[test]
fn test_preexisting_dir_is_not_recreated() {
    // root already holds _pdf and no .pdf file is present: _pdf is never a
    // candidate; an existing _csv directory is not planned again.
    let listing = DirEntries {
        root: String::from("root"),
        dirs: vec![String::from("root/_pdf"), String::from("root/_csv")],
        files: vec![String::from("root/a.csv")],
    };
    let groups = get_ext_map(&listing.files);
    let dirs = get_dirs_to_create(&listing, &groups);
    assert_eq!(dirs, Vec::<String>::new());
}

#[test]
fn test_zero_files_empty_plan() {
    let entries = vec![entry("sub", "root/sub", true), entry(".git", "root/.git", true)];
    let listing = classify_entries(String::from("root"), &entries);
    assert_eq!(listing.files, Vec::<String>::new());
    let groups = get_ext_map(&listing.files);
    assert_eq!(groups.groups.len(), 0);
    let dirs = get_dirs_to_create(&listing, &groups);
    assert_eq!(dirs, Vec::<String>::new());
    let pairs = get_name_pairs(groups, &listing.root);
    assert_eq!(pairs.len(), 0);
}

#[test]
fn test_second_run_is_noop() {
    // First run: two loose files move one level down. A second scan of the
    // top level then lists no loose file, so the second plan is empty.
    let root = String::from("r");
    let first_files = vec![String::from("r/a.csv"), String::from("r/b")];
    let listing = DirEntries {
        root: root.clone(),
        dirs: vec![],
        files: first_files,
    };
    let groups = get_ext_map(&listing.files);
    let mut created = get_dirs_to_create(&listing, &groups);
    let pairs = get_name_pairs(groups, &root);

    // every target left the top level: its path under root/ holds another /
    for p in &pairs {
        let rest = p.to.strip_prefix("r/").unwrap();
        assert!(rest.contains('/'));
    }

    // second scan: the old directories plus the created ones, no loose files
    let mut dirs2 = listing.dirs.clone();
    dirs2.append(&mut created);
    let listing2 = DirEntries {
        root: root.clone(),
        dirs: dirs2,
        files: vec![],
    };
    let groups2 = get_ext_map(&listing2.files);
    assert_eq!(groups2.groups.len(), 0);
    assert_eq!(get_dirs_to_create(&listing2, &groups2), Vec::<String>::new());
    assert_eq!(get_name_pairs(groups2, &root).len(), 0);
}

#[test]
fn test_round_trip_routing() {
    // csv, parquet and no-extension files: each routed under the marked,
    // lower-cased key with its base name unchanged.
    let files = vec![
        String::from("base/one.csv"),
        String::from("base/two.PARQUET"),
        String::from("base/three"),
    ];
    let groups = get_ext_map(&files);
    let pairs = get_name_pairs(groups, &String::from("base"));
    let as_map: HashMap<String, String> =
        pairs.into_iter().map(|r| (r.from, r.to)).collect();
    assert_eq!(as_map[&String::from("base/one.csv")], "base/_csv/one.csv");
    assert_eq!(
        as_map[&String::from("base/two.PARQUET")],
        "base/_parquet/two.PARQUET"
    );
    assert_eq!(as_map[&String::from("base/three")], "base/_no_ext/three");
}

#[test]
fn test_new_path_outside_root_unchanged() {
    let p = String::from("elsewhere/x.csv");
    assert_eq!(new_path("root", "_csv", &p), "elsewhere/x.csv");
    let q = String::from("rootless/x.csv");
    assert_eq!(new_path("root", "_csv", &q), "rootless/x.csv");
}

#[test]
fn test_join_path() {
    assert_eq!(join_path("a/b", "_csv"), "a/b/_csv");
    assert_eq!(join_path("", "x"), "/x");
}

#[test]
fn test_args_parse_single() {
    let args = vec![String::from("some/dir")];
    let parsed = Args::parse(&args).unwrap();
    assert_eq!(parsed.root_dir, "some/dir");
}

#[test]
fn test_args_parse_wrong_count() {
    let none: Vec<String> = vec![];
    let err = Args::parse(&none).unwrap_err();
    assert_eq!(err.got, 0);

    let two = vec![String::from("a"), String::from("b")];
    let err = Args::parse(&two).unwrap_err();
    assert_eq!(err.got, 2);
}
