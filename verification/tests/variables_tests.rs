use gossip::text::{Ident, ParseError};
use gossip::variables::{check_variables, get_variables, Variable, VariableMap, VariablesError};
use gossip::variables_parser::{get_tokens, DefinitionKind, VariablesParser};

fn ident(text: &str, line: usize, col: usize) -> Ident {
    Ident { text: text.to_string(), line, col }
}

#[test]
fn reads_int_and_enum_variables() {
    let mut vars = VariableMap::new();
    get_variables("gold = 10\nmood = { happy, sad } happy\n", &mut vars, "v.variables");
    assert_eq!(vars.len(), 2);
    assert_eq!(vars.get("gold"), Some(&Variable::Int(10)));
    assert_eq!(
        vars.get("mood"),
        Some(&Variable::Enum(vec!["happy".to_string(), "sad".to_string()], "happy".to_string()))
    );
    assert_eq!(vars.entries()[0].0, "gold");
    assert_eq!(vars.entries()[1].0, "mood");
}

#[test]
fn reads_negative_and_extreme_integers() {
    let mut vars = VariableMap::new();
    get_variables("low = -2147483648\nhigh=2147483647\nzero = -0", &mut vars, "v");
    assert_eq!(vars.get("low"), Some(&Variable::Int(i32::MIN)));
    assert_eq!(vars.get("high"), Some(&Variable::Int(i32::MAX)));
    assert_eq!(vars.get("zero"), Some(&Variable::Int(0)));
}

#[test]
fn parser_records_positions() {
    let defs = VariablesParser::parse("\n  gold = 10\nm = {x, y} y").unwrap();
    assert_eq!(defs.len(), 2);
    assert_eq!(defs[0].identifier, ident("gold", 2, 3));
    assert_eq!(defs[0].kind, DefinitionKind::Int(ident("10", 2, 10)));
    assert_eq!(defs[1].identifier, ident("m", 3, 1));
    assert_eq!(
        defs[1].kind,
        DefinitionKind::Enum(vec!["x".to_string(), "y".to_string()], ident("y", 3, 12))
    );
}

#[test]
fn parse_errors_name_the_line() {
    assert_eq!(VariablesParser::parse("a = 1\nb =\n"), Err(ParseError { line: 2 }));
    assert_eq!(VariablesParser::parse("a = b"), Err(ParseError { line: 1 }));
    assert_eq!(VariablesParser::parse("a = {x y} x"), Err(ParseError { line: 1 }));
    assert_eq!(VariablesParser::parse("a = {} x"), Err(ParseError { line: 1 }));
    assert_eq!(VariablesParser::parse("a = 1 2"), Err(ParseError { line: 1 }));
    let vars = VariableMap::new();
    assert_eq!(
        check_variables("ok = 1\n\n = 3", &vars, "v"),
        Err(VariablesError::Parse(ParseError { line: 3 }))
    );
    assert_eq!(vars.len(), 0);
}

#[test]
fn duplicate_variable_is_refused() {
    let vars = VariableMap::new();
    let res = check_variables("a = 1\nb = 2\na = 3\n", &vars, "v.variables");
    assert_eq!(
        res,
        Err(VariablesError::DuplicateVariable {
            file_path: "v.variables".to_string(),
            identifier: ident("a", 3, 1),
        })
    );
    assert_eq!(vars.len(), 0);
}

#[test]
fn variable_already_in_map_is_refused() {
    let mut vars = VariableMap::new();
    vars.insert("a".to_string(), Variable::Int(7));
    let res = check_variables("b = 1\na = 2", &vars, "f");
    assert_eq!(
        res,
        Err(VariablesError::DuplicateVariable { file_path: "f".to_string(), identifier: ident("a", 2, 1) })
    );
    assert_eq!(vars.len(), 1);
    assert_eq!(vars.get("a"), Some(&Variable::Int(7)));
    assert_eq!(vars.get("b"), None);
}

#[test]
fn invalid_initialisation_is_refused() {
    let vars = VariableMap::new();
    let res = check_variables("m = {x, y} z", &vars, "f");
    assert_eq!(
        res,
        Err(VariablesError::InvalidInitialisation { file_path: "f".to_string(), value: ident("z", 1, 12) })
    );
    assert_eq!(vars.len(), 0);
}

#[test]
fn integer_out_of_range_is_refused() {
    let vars = VariableMap::new();
    let res = check_variables("big = 2147483648", &vars, "f");
    assert_eq!(
        res,
        Err(VariablesError::InvalidInteger { file_path: "f".to_string(), value: ident("2147483648", 1, 7) })
    );
    let res = check_variables("small = -2147483649", &vars, "f");
    assert_eq!(
        res,
        Err(VariablesError::InvalidInteger { file_path: "f".to_string(), value: ident("-2147483649", 1, 9) })
    );
    assert_eq!(vars.len(), 0);
}

#[test]
fn second_read_of_same_file_is_refused() {
    let contents = "hp = 3\nmood = {a, b} b";
    let mut vars = VariableMap::new();
    assert_eq!(check_variables(contents, &vars, "f"), Ok(()));
    get_variables(contents, &mut vars, "f");
    let res = check_variables(contents, &vars, "f");
    assert_eq!(
        res,
        Err(VariablesError::DuplicateVariable { file_path: "f".to_string(), identifier: ident("hp", 1, 1) })
    );
    assert_eq!(vars.len(), 2);
}

#[test]
fn variables_get_tokens_does_nothing() {
    get_tokens("a = 1");
}

use gossip::text::i32_to_string;

#[test]
fn written_integers_read_back() {
    for n in [0, 7, -7, 120, i32::MAX, i32::MIN, -1000000] {
        let mut vars = VariableMap::new();
        let contents = format!("x = {}", i32_to_string(n));
        get_variables(&contents, &mut vars, "f");
        assert_eq!(vars.get("x"), Some(&Variable::Int(n)));
    }
}

#[test]
fn enum_initial_value_is_among_values() {
    let mut vars = VariableMap::new();
    get_variables("a = {x} x\nb = {p, q, r} r", &mut vars, "f");
    for (_, v) in vars.entries() {
        if let Variable::Enum(values, initial) = v {
            assert!(values.contains(initial));
        }
    }
}
