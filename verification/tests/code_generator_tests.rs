use gossip::code_generator::{generate_dialogue_code, generate_gossip_code, generate_variables_code};
use gossip::dialogue::{DialogueMap, Line};
use gossip::variables::{Variable, VariableMap};

fn s(x: &str) -> String {
    x.to_string()
}

#[test]
fn gossip_code_declares_node() {
    assert_eq!(
        generate_gossip_code(),
        "extends Node\n\nsignal event(event_identifier: String)\n\nenum LineType {\n\tREGULAR,\n\tCHOICE,\n\tFUNC,\n}\n"
    );
}

#[test]
fn variables_code_declares_each_variable() {
    let mut vars = VariableMap::new();
    vars.insert(s("gold"), Variable::Int(-10));
    vars.insert(s("player_mood"), Variable::Enum(vec![s("happy"), s("veryAngry")], s("happy")));
    assert_eq!(
        generate_variables_code(&vars),
        "extends Node\n\n\ngold := -10\n\n\nenum PlayerMood = {\n\tHAPPY,\n\tVERY_ANGRY,\n}\n\nplayer_mood := PlayerMood.HAPPY\n\n\n"
    );
}

#[test]
fn variables_code_of_no_variables() {
    assert_eq!(generate_variables_code(&VariableMap::new()), "extends Node\n\n\n");
}

#[test]
fn dialogue_code_lists_fragments_and_lines() {
    let mut dialogue = DialogueMap::new();
    dialogue.insert(
        s("a"),
        vec![
            Line::Regular(s("Alice"), s("k0")),
            Line::Choice(s("Bob"), vec![(s("k1"), s("b"))]),
            Line::Func(s("f()")),
        ],
    );
    dialogue.insert(s("b"), vec![]);
    let expected = "class_name Intro\n\n\nvar dialogue := {\n\
\t\"a\": [\n\
\t\t{\n\t\t\t\"type\": Gossip.LineType.REGULAR,\n\t\t\t\"speaker\": \"Alice\",\n\t\t\t\"contents\": \"k0\",\n\t\t},\n\
\t\t{\n\t\t\t\"type\": Gossip.LineType.CHOICE,\n\t\t\t\"speaker\": \"Bob\",\n\t\t\t\"choices\": [\n\
\t\t\t\t{\n\t\t\t\t\t\"contents\": \"k1\",\n\t\t\t\t\t\"target\": \"b\",\n\t\t\t\t},\n\
\t\t\t],\n\t\t},\n\
\t\t{\n\t\t\t\"type\": Gossip.LineType.FUNC,\n\t\t\t\"func\": f(),\n\t\t},\n\
\t],\n\
\t\"b\": [\n\t],\n\
}\n";
    assert_eq!(generate_dialogue_code(s("Intro"), &dialogue), expected);
}
