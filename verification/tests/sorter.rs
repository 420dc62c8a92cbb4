use std::collections::HashMap;

use file_sorter::ext::{get_ext, get_ext_map, ExtGroups, Group};
use file_sorter::plan::{get_dirs_to_create, get_name_pairs};
use file_sorter::scan::DirEntries;

fn groups_to_map(g: &ExtGroups) -> HashMap<String, Vec<String>> {
    let mut m: HashMap<String, Vec<String>> = HashMap::new();
    for grp in &g.groups {
        m.insert(grp.key.clone(), grp.files.clone());
    }
    m
}

fn make_groups(data: Vec<(&str, Vec<&str>)>) -> ExtGroups {
    let mut groups: Vec<Group> = Vec::new();
    for (key, files) in data {
        groups.push(Group {
            key: String::from(key),
            files: files.into_iter().map(String::from).collect(),
        });
    }
    ExtGroups { groups }
}

#[test]
fn test_get_ext_map() {
    let files = vec![
        String::from("some.csv"),
        String::from("wooo.parquet"),
        String::from("another.parquet"),
        String::from("bleurgh.xlsx"),
    ];
    let expected_result = HashMap::from([
        (String::from("_csv"), vec![String::from("some.csv")]),
        (
            String::from("_parquet"),
            vec![
                String::from("wooo.parquet"),
                String::from("another.parquet"),
            ],
        ),
        (String::from("_xlsx"), vec![String::from("bleurgh.xlsx")]),
    ]);

    assert_eq!(groups_to_map(&get_ext_map(&files)), expected_result);
}

#[test]
fn test_get_dirs_to_create() {
    let entries = DirEntries {
        root: String::from("blah"),
        dirs: vec![String::from("blah/_csv"), String::from("blah/_parquet")],
        files: vec![
            String::from("some.csv"),
            String::from("wooo.parquet"),
            String::from("another.parquet"),
            String::from("bleurgh.xlsx"),
        ],
    };

    let ext_map = make_groups(vec![
        ("_csv", vec!["some.csv"]),
        ("_parquet", vec!["wooo.parquet", "another.parquet"]),
        ("_xlsx", vec!["bleurgh.xlsx"]),
    ]);

    let expected_result = vec![String::from("blah/_xlsx")];

    assert_eq!(get_dirs_to_create(&entries, &ext_map), expected_result);
}

#[test]
fn test_get_name_pairs() {
    let ext_map = make_groups(vec![
        (
            "_csv",
            vec![
                "User/some/person/docs/report.csv",
                "User/some/person/docs/data.csv",
                "User/some/person/docs/doc.csv",
            ],
        ),
        (
            "_parquet",
            vec![
                "User/some/person/docs/report.parquet",
                "User/some/person/docs/data.parquet",
                "User/some/person/docs/doc.parquet",
            ],
        ),
        (
            "_pdf",
            vec![
                "User/some/person/docs/report.pdf",
                "User/some/person/docs/data.pdf",
                "User/some/person/docs/doc.pdf",
            ],
        ),
    ]);

    let root = String::from("User/some/person/docs");

    let expected_result = HashMap::from([
        (
            String::from("User/some/person/docs/report.csv"),
            String::from("User/some/person/docs/_csv/report.csv"),
        ),
        (
            String::from("User/some/person/docs/data.csv"),
            String::from("User/some/person/docs/_csv/data.csv"),
        ),
        (
            String::from("User/some/person/docs/doc.csv"),
            String::from("User/some/person/docs/_csv/doc.csv"),
        ),
        (
            String::from("User/some/person/docs/report.parquet"),
            String::from("User/some/person/docs/_parquet/report.parquet"),
        ),
        (
            String::from("User/some/person/docs/data.parquet"),
            String::from("User/some/person/docs/_parquet/data.parquet"),
        ),
        (
            String::from("User/some/person/docs/doc.parquet"),
            String::from("User/some/person/docs/_parquet/doc.parquet"),
        ),
        (
            String::from("User/some/person/docs/report.pdf"),
            String::from("User/some/person/docs/_pdf/report.pdf"),
        ),
        (
            String::from("User/some/person/docs/data.pdf"),
            String::from("User/some/person/docs/_pdf/data.pdf"),
        ),
        (
            String::from("User/some/person/docs/doc.pdf"),
            String::from("User/some/person/docs/_pdf/doc.pdf"),
        ),
    ]);

    let pairs = get_name_pairs(ext_map, &root);
    let as_map: HashMap<String, String> =
        pairs.into_iter().map(|r| (r.from, r.to)).collect();
    assert_eq!(as_map, expected_result);
}

#[test]
fn test_get_ext_lowercases_and_marks() {
    assert_eq!(get_ext("report.csv"), "_csv");
    assert_eq!(get_ext("data.CSV"), "_csv");
    assert_eq!(get_ext("shout.TXT"), "_txt");
    assert_eq!(get_ext("a/b/c.Parquet"), "_parquet");
    assert_eq!(get_ext("archive.tar.gz"), "_gz");
}

#[test]
fn test_get_ext_sentinel_cases() {
    assert_eq!(get_ext("notes"), "_no_ext");
    assert_eq!(get_ext("dir/notes"), "_no_ext");
    assert_eq!(get_ext(".bashrc"), "_no_ext");
    assert_eq!(get_ext("a/.hidden"), "_no_ext");
    assert_eq!(get_ext("trailing."), "_");
    assert_eq!(get_ext(""), "_no_ext");
}
