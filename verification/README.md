# gossip

A dialogue compiler for Godot projects. A project holds one characters file,
one variables file and any number of dialogue files; gossip checks the dialogue
against the characters and variables, turns each fragment into a list of lines,
moves every spoken text into a localisation table, and generates GDScript.

The library (`src/`) is verified with Verus: every parser, every check and every
generator states in its contract exactly what it returns.

## File formats

Blank lines are ignored everywhere; blanks (spaces, tabs, carriage returns) may
stand between the parts of a line. Names are made of ASCII letters, digits and `_`.

`*.characters` — one character name per line.

`*.variables` — one definition per line:

```text
gold = 10
mood = { happy, sad, angry } happy
```

`*.dialogue` — fragments, each a title in brackets followed by its lines:

```text
[intro]
Alice: Hello, *traveller*!
Bob: [Wave back](greet) [Walk away](leave)
set gold += 5
set mood = sad
@door_opened
```

Text may be styled with `*bold*`, `_italic_`, `~wave~` and `^shake^`.

## Refused files

A file that breaks its grammar, or that the checks refuse (a duplicate
variable or fragment title, an integer that does not fit an `i32`, an enum
starting at a value it does not have, an unregistered speaker, a choice leading
to a title the file does not have, a `set` line on an undefined variable, a
`set` to a name on an integer variable, a `+=`, `-=` or numeric `set` on an enum
variable, or an enum `set` whose value in SHOUTY_SNAKE_CASE is one of the enum's
values), is not read: the command stops with a message. Each reader has
a checker that says whether it accepts a file and why not —
`CharactersParser::parse`, `check_variables`, `check_dialogue`, `check_tokens`
— and its contract takes only accepted files.

A file's kind is told by the extension of its path, whose components are
separated by `/` or `\`.

## Layout

- `src/text.rs` — character classes, scanning, line splitting, decimal numbers.
- `src/maps.rs` — an insertion-ordered string map and its laws.
- `src/characters_parser.rs`, `src/characters.rs` — the characters file.
- `src/variables_parser.rs`, `src/variables.rs` — the variables file.
- `src/dialogue_parser.rs`, `src/dialogue.rs` — the dialogue file.
- `src/code_generator.rs` — the generated GDScript.
- `src/lexer.rs` — a token lexer for gossip files.
- `src/reader.rs` — file kinds and the order in which a project takes its files.
- `src/writer.rs` — the generated script names and the localisation table order.
- `src/case.rs` — case conversions (through `heck`).
- `app/` — the command: walks the project directory, reads and writes files.
