use gossip::characters::{get_characters, CharacterSet};
use gossip::dialogue::{
    check_dialogue, check_is_character_valid, decorate, get_bbcode_text, get_dialogue,
    get_localisation_key, DialogueError, DialogueMap, Line, LocalisationMap,
};
use gossip::dialogue_parser::{DialogueItem, DialogueParser, SetKind, StyledSpan, TextStyle};
use gossip::text::{Ident, ParseError};
use gossip::variables::{get_variables, VariableMap};

const PATH: &str = "dialogue/intro.dialogue";

const STORY: &str = "[intro]
Alice: Hello *there*!
Bob: [Go left](left) [Go _right_](right)
set gold += 5
set mood = sad
@door_opened

[left]
Alice: ~Wavy~ ^shaky^

[right]
Bob: Bye
";

fn ident(text: &str, line: usize, col: usize) -> Ident {
    Ident { text: text.to_string(), line, col }
}

fn s(x: &str) -> String {
    x.to_string()
}

fn setup() -> (CharacterSet, VariableMap) {
    let mut characters = CharacterSet::new();
    get_characters("Alice\nBob\n", &mut characters);
    let mut variables = VariableMap::new();
    get_variables("gold = 10\nmood = {happy, sad} happy\n", &mut variables, "v.variables");
    (characters, variables)
}

fn read(contents: &str) -> (Result<(), DialogueError>, DialogueMap, LocalisationMap) {
    let (characters, variables) = setup();
    let mut dialogue = DialogueMap::new();
    let mut loc = LocalisationMap::new();
    let res = check_dialogue(contents, &characters, &variables, PATH);
    if res.is_ok() {
        get_dialogue(contents, &mut dialogue, &characters, &variables, &mut loc, PATH);
    }
    (res, dialogue, loc)
}

#[test]
fn story_becomes_lines_and_localisation() {
    let (res, dialogue, loc) = read(STORY);
    assert_eq!(res, Ok(()));
    assert_eq!(dialogue.len(), 3);
    assert_eq!(
        dialogue.get("intro"),
        Some(&vec![
            Line::Regular(s("Alice"), s("dialogue/intro.dialogue intro 0")),
            Line::Choice(
                s("Bob"),
                vec![
                    (s("dialogue/intro.dialogue left 1 0"), s("left")),
                    (s("dialogue/intro.dialogue right 1 1"), s("right")),
                ]
            ),
            Line::Func(s("func(): GossipVariables.gold += 5")),
            Line::Func(s("func(): GossipVariables.mood = GossipVariables.Mood.SAD")),
            Line::Func(s("func(): Gossip.event.emit(\"door_opened\")")),
        ])
    );
    assert_eq!(dialogue.get("left"), Some(&vec![Line::Regular(s("Alice"), s("dialogue/intro.dialogue left 0"))]));
    assert_eq!(dialogue.get("right"), Some(&vec![Line::Regular(s("Bob"), s("dialogue/intro.dialogue right 0"))]));
    assert_eq!(
        *loc.entries(),
        vec![
            (s("dialogue/intro.dialogue intro 0"), s("Hello [b]there[/b]!")),
            (s("dialogue/intro.dialogue left 1 0"), s("Go left")),
            (s("dialogue/intro.dialogue right 1 1"), s("Go [i]right[/i]")),
            (
                s("dialogue/intro.dialogue left 0"),
                s("[wave amp=50.0 freq=5.0 connected=1]{Wavy}[/wave] [shake rate=20.0 level=5 connected=1]{shaky}[/shake]")
            ),
            (s("dialogue/intro.dialogue right 0"), s("Bye")),
        ]
    );
}

#[test]
fn every_used_key_has_a_text_and_every_choice_a_fragment() {
    let (res, dialogue, loc) = read(STORY);
    assert!(res.is_ok());
    for (_, lines) in dialogue.entries() {
        for line in lines {
            match line {
                Line::Regular(_, key) => assert!(loc.contains_key(key)),
                Line::Choice(_, choices) => {
                    for (key, target) in choices {
                        assert!(loc.contains_key(key));
                        assert!(dialogue.contains_key(target));
                    }
                }
                Line::Func(_) => {}
            }
        }
    }
}

#[test]
fn integer_set_lines() {
    let (res, dialogue, _) = read("[a]\nset gold -= 3\nset gold = -4\nset gold = 7\n");
    assert_eq!(res, Ok(()));
    assert_eq!(
        dialogue.get("a"),
        Some(&vec![
            Line::Func(s("func(): GossipVariables.gold -= 3")),
            Line::Func(s("func(): GossipVariables.gold = 4")),
            Line::Func(s("func(): GossipVariables.gold = 7")),
        ])
    );
}

#[test]
fn unregistered_character_is_refused() {
    let (res, dialogue, loc) = read("[a]\nCarol: hi\n");
    assert_eq!(res, Err(DialogueError::UnregisteredCharacter { character: ident("Carol", 2, 1) }));
    assert_eq!(dialogue.len(), 0);
    assert_eq!(loc.len(), 0);
}

#[test]
fn unregistered_character_in_choice_is_refused() {
    let (res, _, _) = read("[a]\nAlice: fine\n  Zed: [go](a)\n");
    assert_eq!(res, Err(DialogueError::UnregisteredCharacter { character: ident("Zed", 3, 3) }));
}

#[test]
fn transition_to_missing_fragment_is_refused() {
    let (res, dialogue, loc) = read("[a]\nAlice: hi\nBob: [go](a) [away](nowhere)\n");
    assert_eq!(
        res,
        Err(DialogueError::NonexistentTransition { file_path: s(PATH), title: ident("nowhere", 3, 21) })
    );
    assert_eq!(dialogue.len(), 0);
    assert_eq!(loc.len(), 0);
}

#[test]
fn undefined_variable_is_refused() {
    let (res, _, _) = read("[a]\nset hp = 3\n");
    assert_eq!(res, Err(DialogueError::UndefinedVariable { file_path: s(PATH), variable: ident("hp", 2, 5) }));
}

#[test]
fn type_mismatches_are_refused() {
    let (res, _, _) = read("[a]\nset gold = lots\n");
    assert_eq!(res, Err(DialogueError::TypeMismatch { file_path: s(PATH), value: ident("lots", 2, 12) }));
    let (res, _, _) = read("[a]\nset mood = 3\n");
    assert_eq!(res, Err(DialogueError::TypeMismatch { file_path: s(PATH), value: ident("3", 2, 12) }));
    let (res, _, _) = read("[a]\nset mood += 1\n");
    assert_eq!(res, Err(DialogueError::TypeMismatch { file_path: s(PATH), value: ident("1", 2, 13) }));
}

#[test]
fn enum_value_matching_shouty_name_is_a_mismatch() {
    let mut characters = CharacterSet::new();
    get_characters("Alice", &mut characters);
    let mut variables = VariableMap::new();
    get_variables("mood = {HAPPY, SAD} HAPPY", &mut variables, "v");
    let res = check_dialogue("[a]\nset mood = happy\n", &characters, &variables, "d");
    assert_eq!(res, Err(DialogueError::TypeMismatch { file_path: s("d"), value: ident("happy", 2, 12) }));
}

#[test]
fn duplicate_titles_are_refused() {
    let (res, _, _) = read("[a]\nAlice: x\n[ a ]\nAlice: y\n");
    assert_eq!(
        res,
        Err(DialogueError::DuplicateFragmentTitle { file_path: s(PATH), title: ident("a", 3, 3) })
    );
}

#[test]
fn grammar_errors_name_the_line() {
    let (res, _, _) = read("Alice: hi\n");
    assert_eq!(res, Err(DialogueError::Parse(ParseError { line: 1 })));
    let (res, _, _) = read("[a]\n\n[b]\nAlice: x\n");
    assert_eq!(res, Err(DialogueError::Parse(ParseError { line: 1 })));
    let (res, _, _) = read("[a]\nAlice: x\n[b]\n\n");
    assert_eq!(res, Err(DialogueError::Parse(ParseError { line: 3 })));
    let (res, _, _) = read("[a]\nAlice: *unclosed\n");
    assert_eq!(res, Err(DialogueError::Parse(ParseError { line: 2 })));
    let (res, _, _) = read("[a]\nAlice:\n");
    assert_eq!(res, Err(DialogueError::Parse(ParseError { line: 2 })));
    let (res, _, _) = read("[a]\nset gold = -x\n");
    assert_eq!(res, Err(DialogueError::Parse(ParseError { line: 2 })));
    let (res, _, _) = read("[a]\nset gold += x\n");
    assert_eq!(res, Err(DialogueError::Parse(ParseError { line: 2 })));
}

#[test]
fn empty_file_adds_nothing() {
    let (res, dialogue, loc) = read("\n\n");
    assert_eq!(res, Ok(()));
    assert_eq!(dialogue.len(), 0);
    assert_eq!(loc.len(), 0);
}

#[test]
fn second_file_adds_to_the_maps() {
    let (characters, variables) = setup();
    let mut dialogue = DialogueMap::new();
    let mut loc = LocalisationMap::new();
    get_dialogue("[x]\nAlice: first\n", &mut dialogue, &characters, &variables, &mut loc, "one");
    let bad = "[y]\nAlice: ok\nBob: [go](z)\n";
    assert!(check_dialogue(bad, &characters, &variables, "two").is_err());
    let good = "[y]\nBob: [go](y)\n";
    assert_eq!(check_dialogue(good, &characters, &variables, "two"), Ok(()));
    get_dialogue(good, &mut dialogue, &characters, &variables, &mut loc, "two");
    assert_eq!(dialogue.len(), 2);
    assert_eq!(*loc.entries(), vec![(s("one x 0"), s("first")), (s("two y 0 0"), s("go"))]);
}

#[test]
fn parser_reads_spans_and_positions() {
    let frags = DialogueParser::parse("  [ t ]\nAlice : a*b*c\nset x = Y_1\n@ev\n").unwrap();
    assert_eq!(frags.len(), 1);
    assert_eq!(frags[0].title, ident("t", 1, 5));
    assert_eq!(frags[0].items.len(), 3);
    assert_eq!(
        frags[0].items[0],
        DialogueItem::Regular {
            character: ident("Alice", 2, 1),
            text: vec![
                StyledSpan { style: TextStyle::Plain, text: s("a") },
                StyledSpan { style: TextStyle::Bold, text: s("b") },
                StyledSpan { style: TextStyle::Plain, text: s("c") },
            ],
        }
    );
    assert_eq!(
        frags[0].items[1],
        DialogueItem::SetVariable { kind: SetKind::SetEnum, variable: ident("x", 3, 5), value: ident("Y_1", 3, 9) }
    );
    assert_eq!(frags[0].items[2], DialogueItem::Event { event: ident("ev", 4, 2) });
}

#[test]
fn decorate_each_style() {
    assert_eq!(decorate(s("t"), TextStyle::Plain), "t");
    assert_eq!(decorate(s("t"), TextStyle::Bold), "[b]t[/b]");
    assert_eq!(decorate(s("t"), TextStyle::Italic), "[i]t[/i]");
    assert_eq!(decorate(s("t"), TextStyle::Wave), "[wave amp=50.0 freq=5.0 connected=1]{t}[/wave]");
    assert_eq!(decorate(s("t"), TextStyle::Shake), "[shake rate=20.0 level=5 connected=1]{t}[/shake]");
}

#[test]
fn bbcode_joins_spans() {
    let spans = vec![
        StyledSpan { style: TextStyle::Plain, text: s("a ") },
        StyledSpan { style: TextStyle::Italic, text: s("b") },
    ];
    assert_eq!(get_bbcode_text(&spans), "a [i]b[/i]");
    assert_eq!(get_bbcode_text(&vec![]), "");
}

#[test]
fn localisation_key_joins_with_spaces() {
    assert_eq!(get_localisation_key("p/f.dialogue", "intro", s("3 1")), "p/f.dialogue intro 3 1");
}

#[test]
fn character_check() {
    let (characters, _) = setup();
    assert!(characters.contains("Alice"));
    check_is_character_valid(&ident("Alice", 1, 1), &characters);
    assert!(!characters.contains("Eve"));
    let (res, _, _) = read("[a]\nEve: hi\n");
    assert_eq!(res, Err(DialogueError::UnregisteredCharacter { character: ident("Eve", 2, 1) }));
}

#[test]
fn read_titles_are_distinct() {
    let (res, dialogue, _) = read(STORY);
    assert!(res.is_ok());
    let titles: Vec<&String> = dialogue.entries().iter().map(|(t, _)| t).collect();
    assert_eq!(titles, vec!["intro", "left", "right"]);
}
