use gossip::reader::{compare_file_types, get_file_type, sort_files_by_type, FileType, GossipFile};
use std::cmp::Ordering;

#[test]
fn file_type_by_extension() {
    assert_eq!(get_file_type("./project/alice.characters"), FileType::Characters);
    assert_eq!(get_file_type("vars.variables"), FileType::Variables);
    assert_eq!(get_file_type("a/b/intro.dialogue"), FileType::Dialogue);
    assert_eq!(get_file_type("a.tar.dialogue"), FileType::Dialogue);
    assert_eq!(get_file_type("notes.txt"), FileType::Unidentified);
    assert_eq!(get_file_type("dialogue"), FileType::Unidentified);
}

#[test]
fn file_type_edge_paths() {
    assert_eq!(get_file_type(".characters"), FileType::Unidentified);
    assert_eq!(get_file_type("x.characters/"), FileType::Characters);
    assert_eq!(get_file_type("x.characters/."), FileType::Characters);
    assert_eq!(get_file_type("x.dialogue/.."), FileType::Unidentified);
    assert_eq!(get_file_type("foo."), FileType::Unidentified);
    assert_eq!(get_file_type(""), FileType::Unidentified);
    assert_eq!(get_file_type("/"), FileType::Unidentified);
    assert_eq!(get_file_type("dir.dialogue/file"), FileType::Unidentified);
}

#[test]
fn backslash_separates_components() {
    assert_eq!(get_file_type(".\\scenes\\.dialogue"), FileType::Unidentified);
    assert_eq!(get_file_type("a\\b.dialogue"), FileType::Dialogue);
    assert_eq!(get_file_type("x.variables\\"), FileType::Variables);
    assert_eq!(get_file_type("dir.dialogue\\file"), FileType::Unidentified);
}

#[test]
fn file_types_compare_by_rank() {
    assert_eq!(compare_file_types(FileType::Dialogue, FileType::Characters), Ordering::Less);
    assert_eq!(compare_file_types(FileType::Characters, FileType::Variables), Ordering::Greater);
    assert_eq!(compare_file_types(FileType::Variables, FileType::Dialogue), Ordering::Greater);
    assert_eq!(compare_file_types(FileType::Dialogue, FileType::Unidentified), Ordering::Equal);
    assert_eq!(compare_file_types(FileType::Characters, FileType::Characters), Ordering::Equal);
}

fn file(path: &str, file_type: FileType) -> GossipFile {
    GossipFile { file_path: path.to_string(), file_type, contents: String::new() }
}

#[test]
fn files_sorted_into_project_order() {
    let files = vec![
        file("c.characters", FileType::Characters),
        file("a.dialogue", FileType::Dialogue),
        file("v.variables", FileType::Variables),
        file("b.dialogue", FileType::Dialogue),
    ];
    let sorted = sort_files_by_type(files);
    let paths: Vec<&str> = sorted.iter().map(|f| f.file_path.as_str()).collect();
    assert_eq!(paths, vec!["a.dialogue", "b.dialogue", "v.variables", "c.characters"]);
}

#[test]
fn sort_matches_std_stable_sort_with_comparator() {
    let make = || {
        vec![
            file("1", FileType::Variables),
            file("2", FileType::Characters),
            file("3", FileType::Dialogue),
            file("4", FileType::Characters),
            file("5", FileType::Variables),
        ]
    };
    let mut expected = make();
    expected.sort_by(|a, b| compare_file_types(a.file_type, b.file_type));
    assert_eq!(sort_files_by_type(make()), expected);
}
