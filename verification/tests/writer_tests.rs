use gossip::dialogue::LocalisationMap;
use gossip::writer::{gdscript_file_name, holds_oversized_digit_run, keys_sortable, sorted_localisation_entries};

#[test]
fn gdscript_name_in_snake_case() {
    assert_eq!(gdscript_file_name("MyDialogue"), "my_dialogue.gd");
    assert_eq!(gdscript_file_name("intro"), "intro.gd");
}

#[test]
fn entries_in_human_order() {
    let mut map = LocalisationMap::new();
    map.insert("file10".to_string(), "c".to_string());
    map.insert("file2".to_string(), "b".to_string());
    map.insert("file1".to_string(), "a".to_string());
    let sorted = sorted_localisation_entries(&map);
    assert_eq!(
        sorted,
        vec![
            ("file1".to_string(), "a".to_string()),
            ("file2".to_string(), "b".to_string()),
            ("file10".to_string(), "c".to_string()),
        ]
    );
}

#[test]
fn entries_of_dialogue_keys_in_human_order() {
    let mut map = LocalisationMap::new();
    for key in ["d intro 10", "d intro 9", "d end 0", "d intro 1 2", "d intro 1 10"] {
        map.insert(key.to_string(), String::new());
    }
    let keys: Vec<String> = sorted_localisation_entries(&map).into_iter().map(|(k, _)| k).collect();
    assert_eq!(keys, vec!["d end 0", "d intro 1 2", "d intro 1 10", "d intro 9", "d intro 10"]);
}

#[test]
fn no_entries() {
    assert_eq!(sorted_localisation_entries(&LocalisationMap::new()), vec![]);
}

#[test]
fn oversized_digit_runs_are_found() {
    assert!(!holds_oversized_digit_run(""));
    assert!(!holds_oversized_digit_run("x123456789"));
    assert!(!holds_oversized_digit_run("0000000000"));
    assert!(!holds_oversized_digit_run("1000000000"));
    assert!(!holds_oversized_digit_run("00000000001"));
    assert!(!holds_oversized_digit_run("level_1700000000.dialogue intro 0"));
    assert!(!holds_oversized_digit_run("a4294967295b"));
    assert!(holds_oversized_digit_run("a4294967296b"));
    assert!(holds_oversized_digit_run("x5000000000"));
    assert!(holds_oversized_digit_run("ab 99999999999 cd"));
    assert!(!holds_oversized_digit_run("12345 67890 4294967295"));
}

#[test]
fn keys_with_oversized_digit_runs_cannot_be_sorted() {
    let mut map = LocalisationMap::new();
    map.insert("d x5000000000 0".to_string(), String::new());
    assert!(!keys_sortable(&map));
    let mut map = LocalisationMap::new();
    map.insert("level_1700000000.dialogue intro 0".to_string(), String::new());
    map.insert("level_1600000000.dialogue intro 0".to_string(), String::new());
    map.insert("d 0000000000 1".to_string(), String::new());
    assert!(keys_sortable(&map));
    let keys: Vec<String> = sorted_localisation_entries(&map).into_iter().map(|(k, _)| k).collect();
    assert_eq!(
        keys,
        vec!["d 0000000000 1", "level_1600000000.dialogue intro 0", "level_1700000000.dialogue intro 0"]
    );
}

#[test]
fn sorted_keys_never_decrease() {
    let mut map = LocalisationMap::new();
    for key in ["b 10", "a 2", "b 9", "a 10", "c", "a 2 1", "b 09"] {
        map.insert(key.to_string(), String::new());
    }
    let keys: Vec<String> = sorted_localisation_entries(&map).into_iter().map(|(k, _)| k).collect();
    assert_eq!(keys.len(), 7);
    for i in 0..keys.len() {
        for j in i + 1..keys.len() {
            assert_ne!(human_sort::compare(&keys[i], &keys[j]), std::cmp::Ordering::Greater);
        }
    }
}
