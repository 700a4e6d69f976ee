use gossip::characters::{get_characters, CharacterSet};
use gossip::characters_parser::CharactersParser;
use gossip::text::ParseError;

#[test]
fn parse_lists_names_in_order() {
    let names = CharactersParser::parse("Alice\nBob\n  Carol_2 \n").unwrap();
    assert_eq!(names, vec!["Alice".to_string(), "Bob".to_string(), "Carol_2".to_string()]);
}

#[test]
fn parse_skips_blank_lines() {
    let names = CharactersParser::parse("\n\n  \t\nAlice\r\n\nBob").unwrap();
    assert_eq!(names, vec!["Alice".to_string(), "Bob".to_string()]);
}

#[test]
fn parse_empty_file_has_no_names() {
    assert_eq!(CharactersParser::parse("").unwrap(), Vec::<String>::new());
}

#[test]
fn parse_refuses_two_names_on_a_line() {
    assert_eq!(CharactersParser::parse("Alice\nBob Carol\n"), Err(ParseError { line: 2 }));
}

#[test]
fn parse_refuses_punctuation() {
    assert_eq!(CharactersParser::parse("Alice!\n"), Err(ParseError { line: 1 }));
    assert_eq!(CharactersParser::parse("ok\nok\n\nA-B"), Err(ParseError { line: 4 }));
}

#[test]
fn get_characters_adds_each_name() {
    let mut set = CharacterSet::new();
    get_characters("Alice\nBob\n", &mut set);
    assert!(set.contains("Alice"));
    assert!(set.contains("Bob"));
    assert!(!set.contains("Carol"));
    assert_eq!(set.len(), 2);
}

#[test]
fn get_characters_keeps_names_already_there_once() {
    let mut set = CharacterSet::new();
    assert!(set.insert("Alice".to_string()));
    get_characters("Alice\nAlice\nBob", &mut set);
    assert_eq!(set.len(), 2);
    assert!(set.contains("Alice"));
    assert!(set.contains("Bob"));
}

#[test]
fn characters_file_is_checked_before_it_is_read() {
    let mut set = CharacterSet::new();
    set.insert("Zed".to_string());
    let bad = "Alice\n???\n";
    assert_eq!(CharactersParser::parse(bad), Err(ParseError { line: 2 }));
    let good = "Alice\nZed\n";
    assert!(CharactersParser::parse(good).is_ok());
    get_characters(good, &mut set);
    assert_eq!(set.len(), 2);
}

#[test]
fn character_set_insert_reports_new_names() {
    let mut set = CharacterSet::new();
    assert!(set.insert("A".to_string()));
    assert!(!set.insert("A".to_string()));
    assert_eq!(set.len(), 1);
}
