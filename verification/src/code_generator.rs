//! GDScript generated from the variables and the dialogue.
//!
//! Maps are written in the order of their entries.
use vstd::prelude::*;
use crate::case::{pascal_case, shouty_snake_case, to_pascal_case, to_shouty_snake_case};
use crate::dialogue::{DialogueMap, Line, LineView};
use crate::text::{
    i32_to_string, int_decimal, is_int_literal, lemma_decimal_roundtrip, literal_value, strings_view,
};
use crate::variables::{Variable, VariableMap, VariableView};

verus! {

/// The script that declares the `Gossip` node.
pub open spec fn gossip_code() -> Seq<char> {
    "extends Node\n\nsignal event(event_identifier: String)\n\nenum LineType {\n\tREGULAR,\n\tCHOICE,\n\tFUNC,\n}\n"@
}

/// The script that declares the `Gossip` node: its `event` signal and the
/// `LineType` enum.
pub fn generate_gossip_code() -> (res: String)
    ensures
        res@ == gossip_code(),
{
    String::from_str(
        "extends Node\n\nsignal event(event_identifier: String)\n\nenum LineType {\n\tREGULAR,\n\tCHOICE,\n\tFUNC,\n}\n",
    )
}

/// One line per possible value of an enum, in SHOUTY_SNAKE_CASE.
pub open spec fn enum_values_code(values: Seq<Seq<char>>) -> Seq<char>
    decreases values.len(),
{
    if values.len() == 0 {
        Seq::empty()
    } else {
        enum_values_code(values.drop_last()) + "\t"@ + shouty_snake_case(values.last()) + ",\n"@
    }
}

/// The declaration of one variable.
pub open spec fn variable_code(identifier: Seq<char>, variable: VariableView) -> Seq<char> {
    match variable {
        VariableView::Int(v) => identifier + " := "@ + int_decimal(v) + "\n\n\n"@,
        VariableView::Enum(values, initial) => {
            let enum_name = pascal_case(identifier);
            "enum "@ + enum_name + " = {\n"@ + enum_values_code(values) + "}\n\n"@ + identifier
                + " := "@ + enum_name + "."@ + shouty_snake_case(initial) + "\n\n\n"@
        },
    }
}

/// An integer variable is declared as its name, ` := `, its value written in
/// decimal and three newlines: the text between ` := ` and the newlines is an
/// integer literal that reads back as the variable's value.
pub proof fn lemma_int_declaration_reads_back(identifier: Seq<char>, v: int)
    ensures
        ({
            let code = variable_code(identifier, VariableView::Int(v));
            let start = identifier.len() + 4int;
            let end = code.len() - 3;
            &&& start < end
            &&& code.subrange(0, start) == identifier + seq![' ', ':', '=', ' ']
            &&& code.subrange(end, code.len() as int) == seq!['\n', '\n', '\n']
            &&& is_int_literal(code.subrange(start, end))
            &&& literal_value(code.subrange(start, end)) == v
        }),
{
    reveal_strlit(" := ");
    reveal_strlit("\n\n\n");
    let code = variable_code(identifier, VariableView::Int(v));
    let t = int_decimal(v);
    lemma_decimal_roundtrip(v);
    let start = identifier.len() + 4int;
    let end = code.len() - 3;
    assert(code == identifier + seq![' ', ':', '=', ' '] + t + seq!['\n', '\n', '\n']);
    assert(code.subrange(start, end) =~= t);
    assert(code.subrange(0, start) =~= identifier + seq![' ', ':', '=', ' ']);
    assert(code.subrange(end, code.len() as int) =~= seq!['\n', '\n', '\n']);
}

/// An enum variable is declared with its values, in order, each in
/// SHOUTY_SNAKE_CASE on a line of its own, and it starts at its own initial
/// value: the declaration ends with the name, ` := `, the enum's name in
/// PascalCase, `.` and the initial value in SHOUTY_SNAKE_CASE.
pub proof fn lemma_enum_declaration(identifier: Seq<char>, values: Seq<Seq<char>>, initial: Seq<char>, i: int)
    requires
        0 <= i < values.len(),
    ensures
        enum_values_code(values.take(i + 1)) == enum_values_code(values.take(i)) + seq!['\t']
            + shouty_snake_case(values[i]) + seq![',', '\n'],
        (identifier + seq![' ', ':', '=', ' '] + pascal_case(identifier) + seq!['.']
            + shouty_snake_case(initial) + seq!['\n', '\n', '\n']).is_suffix_of(
            variable_code(identifier, VariableView::Enum(values, initial)),
        ),
{
    reveal_strlit("\t");
    reveal_strlit(",\n");
    reveal_strlit(" := ");
    reveal_strlit(".");
    reveal_strlit("\n\n\n");
    assert(values.take(i + 1).drop_last() == values.take(i));
    assert(values.take(i + 1).last() == values[i]);
    let enum_name = pascal_case(identifier);
    let tail = identifier + seq![' ', ':', '=', ' '] + enum_name + seq!['.'] + shouty_snake_case(
        initial,
    ) + seq!['\n', '\n', '\n'];
    let head = "enum "@ + enum_name + " = {\n"@ + enum_values_code(values) + "}\n\n"@;
    assert(variable_code(identifier, VariableView::Enum(values, initial)) =~= head + tail);
    assert(tail =~= (head + tail).subrange(head.len() as int, (head + tail).len() as int));
}

/// The declarations of the variables, in order.
pub open spec fn variables_body(vars: Seq<(Seq<char>, VariableView)>) -> Seq<char>
    decreases vars.len(),
{
    if vars.len() == 0 {
        Seq::empty()
    } else {
        variables_body(vars.drop_last()) + variable_code(vars.last().0, vars.last().1)
    }
}

pub open spec fn variables_code(vars: Seq<(Seq<char>, VariableView)>) -> Seq<char> {
    "extends Node\n\n\n"@ + variables_body(vars)
}

/// The script that declares the variables with their initial values: an
/// integer as `NAME := VALUE`, an enum as an enum type named in PascalCase,
/// with its values in SHOUTY_SNAKE_CASE, and the variable set to its initial
/// value.
#[verifier::rlimit(40)]
pub fn generate_variables_code(variables: &VariableMap) -> (res: String)
    ensures
        res@ == variables_code(variables.deep_view()),
{
    let ghost vars = variables.deep_view();
    let es = variables.entries();
    let mut res = String::new();
    res.append("extends Node\n\n\n");
    let mut i: usize = 0;
    assert(vars.take(0) =~= Seq::<(Seq<char>, VariableView)>::empty());
    while i < es.len()
        invariant
            i <= es.len(),
            vars == es.deep_view(),
            res@ == "extends Node\n\n\n"@ + variables_body(vars.take(i as int)),
        decreases es.len() - i,
    {
        let (identifier, variable) = &es[i];
        assert(vars.take(i + 1).drop_last() == vars.take(i as int));
        assert(vars.take(i + 1).last() == (identifier@, variable.deep_view()));
        let ghost before = res@;
        match variable {
            Variable::Int(initial_value) => {
                res.append(identifier.as_str());
                res.append(" := ");
                let v = i32_to_string(*initial_value);
                res.append(v.as_str());
                res.append("\n\n\n");
                assert(res@ =~= before + variable_code(identifier@, variable.deep_view()));
            },
            Variable::Enum(possible_values, initial_value) => {
                let enum_name = to_pascal_case(identifier.as_str());
                res.append("enum ");
                res.append(enum_name.as_str());
                res.append(" = {\n");
                let ghost values = strings_view(possible_values@);
                let ghost start = res@;
                let mut j: usize = 0;
                assert(values.take(0) =~= Seq::<Seq<char>>::empty());
                assert(res@ =~= start + enum_values_code(values.take(0)));
                while j < possible_values.len()
                    invariant
                        j <= possible_values.len(),
                        values == strings_view(possible_values@),
                        res@ == start + enum_values_code(values.take(j as int)),
                    decreases possible_values.len() - j,
                {
                    assert(values.take(j + 1).drop_last() == values.take(j as int));
                    let ghost inner = res@;
                    res.append("\t");
                    let shouty = to_shouty_snake_case(possible_values[j].as_str());
                    res.append(shouty.as_str());
                    res.append(",\n");
                    assert(res@ =~= start + enum_values_code(values.take(j + 1)));
                    j = j + 1;
                }
                assert(values.take(possible_values.len() as int) == values);
                res.append("}\n\n");
                res.append(identifier.as_str());
                res.append(" := ");
                res.append(enum_name.as_str());
                res.append(".");
                let shouty = to_shouty_snake_case(initial_value.as_str());
                res.append(shouty.as_str());
                res.append("\n\n\n");
                assert(res@ =~= before + variable_code(identifier@, variable.deep_view()));
            },
        }
        i = i + 1;
    }
    assert(vars.take(es.len() as int) == vars);
    res
}

/// One choice of a choice line.
pub open spec fn choice_code(choice: (Seq<char>, Seq<char>)) -> Seq<char> {
    "\t\t\t\t{\n"@ + "\t\t\t\t\t\"contents\": \""@ + choice.0 + "\",\n"@
        + "\t\t\t\t\t\"target\": \""@ + choice.1 + "\",\n"@ + "\t\t\t\t},\n"@
}

pub open spec fn choices_code(choices: Seq<(Seq<char>, Seq<char>)>) -> Seq<char>
    decreases choices.len(),
{
    if choices.len() == 0 {
        Seq::empty()
    } else {
        choices_code(choices.drop_last()) + choice_code(choices.last())
    }
}

/// The code of the first `i + 1` choices of a choice line is that of the first
/// `i`, followed by a block for choice `i` that holds that choice's own
/// localisation key as its contents and that choice's own title as its target.
pub proof fn lemma_choice_block(choices: Seq<(Seq<char>, Seq<char>)>, i: int)
    requires
        0 <= i < choices.len(),
    ensures
        choices_code(choices.take(i + 1)) == choices_code(choices.take(i)) + "\t\t\t\t{\n"@
            + "\t\t\t\t\t\"contents\": \""@ + choices[i].0 + "\",\n"@ + "\t\t\t\t\t\"target\": \""@
            + choices[i].1 + "\",\n"@ + "\t\t\t\t},\n"@,
{
    assert(choices.take(i + 1).drop_last() == choices.take(i));
    assert(choices.take(i + 1).last() == choices[i]);
}

/// The code of all the choices of a choice line holds, for each choice in
/// order, a block with that choice's own key and own target: choice `i`'s
/// block follows the code of the choices before it.
pub proof fn lemma_choices_code_prefix(choices: Seq<(Seq<char>, Seq<char>)>, i: int)
    requires
        0 <= i < choices.len(),
    ensures
        (choices_code(choices.take(i)) + "\t\t\t\t{\n"@ + "\t\t\t\t\t\"contents\": \""@
            + choices[i].0 + "\",\n"@ + "\t\t\t\t\t\"target\": \""@ + choices[i].1 + "\",\n"@
            + "\t\t\t\t},\n"@).is_prefix_of(choices_code(choices)),
    decreases choices.len() - i,
{
    lemma_choice_block(choices, i);
    lemma_choices_code_grows(choices, i + 1);
}

proof fn lemma_choices_code_grows(choices: Seq<(Seq<char>, Seq<char>)>, n: int)
    requires
        0 <= n <= choices.len(),
    ensures
        choices_code(choices.take(n)).is_prefix_of(choices_code(choices)),
    decreases choices.len() - n,
{
    if n == choices.len() {
        assert(choices.take(n) == choices);
    } else {
        lemma_choices_code_grows(choices, n + 1);
        assert(choices.take(n + 1).drop_last() == choices.take(n));
        let a = choices_code(choices.take(n));
        let b = choices_code(choices.take(n + 1));
        assert(b == a + choice_code(choices[n]));
        assert forall|k: int| 0 <= k < a.len() implies a[k] == choices_code(choices)[k] by {
            assert(a[k] == b[k]);
        }
    }
}

/// The fields of one line.
pub open spec fn line_fields(line: LineView) -> Seq<char> {
    match line {
        LineView::Regular(speaker, key) => "\t\t\t\"type\": Gossip.LineType.REGULAR,\n"@
            + "\t\t\t\"speaker\": \""@ + speaker + "\",\n"@ + "\t\t\t\"contents\": \""@ + key
            + "\",\n"@,
        LineView::Choice(speaker, choices) => "\t\t\t\"type\": Gossip.LineType.CHOICE,\n"@
            + "\t\t\t\"speaker\": \""@ + speaker + "\",\n"@ + "\t\t\t\"choices\": [\n"@
            + choices_code(choices) + "\t\t\t],\n"@,
        LineView::Func(f) => "\t\t\t\"type\": Gossip.LineType.FUNC,\n"@ + "\t\t\t\"func\": "@ + f
            + ",\n"@,
    }
}

pub open spec fn line_code(line: LineView) -> Seq<char> {
    "\t\t{\n"@ + line_fields(line) + "\t\t},\n"@
}

pub open spec fn lines_code(lines: Seq<LineView>) -> Seq<char>
    decreases lines.len(),
{
    if lines.len() == 0 {
        Seq::empty()
    } else {
        lines_code(lines.drop_last()) + line_code(lines.last())
    }
}

/// One fragment: its title and its lines.
pub open spec fn fragment_code(title: Seq<char>, lines: Seq<LineView>) -> Seq<char> {
    "\t\""@ + title + "\": [\n"@ + lines_code(lines) + "\t],\n"@
}

pub open spec fn fragments_code(dialogue: Seq<(Seq<char>, Seq<LineView>)>) -> Seq<char>
    decreases dialogue.len(),
{
    if dialogue.len() == 0 {
        Seq::empty()
    } else {
        fragments_code(dialogue.drop_last()) + fragment_code(dialogue.last().0, dialogue.last().1)
    }
}

/// The code of the first `i + 1` fragments is that of the first `i`,
/// followed by fragment `i`'s own title and the code of its own lines.
pub proof fn lemma_fragment_block(dialogue: Seq<(Seq<char>, Seq<LineView>)>, i: int)
    requires
        0 <= i < dialogue.len(),
    ensures
        fragments_code(dialogue.take(i + 1)) == fragments_code(dialogue.take(i)) + seq!['\t', '"']
            + dialogue[i].0 + seq!['"', ':', ' ', '[', '\n'] + lines_code(dialogue[i].1) + seq![
            '\t',
            ']',
            ',',
            '\n',
        ],
{
    reveal_strlit("\t\"");
    reveal_strlit("\": [\n");
    reveal_strlit("\t],\n");
    assert(dialogue.take(i + 1).drop_last() == dialogue.take(i));
    assert(dialogue.take(i + 1).last() == dialogue[i]);
    assert(fragment_code(dialogue[i].0, dialogue[i].1) =~= seq!['\t', '"'] + dialogue[i].0 + seq![
        '"',
        ':',
        ' ',
        '[',
        '\n',
    ] + lines_code(dialogue[i].1) + seq!['\t', ']', ',', '\n']);
}

/// The code of the first `i + 1` lines of a fragment is that of the first
/// `i`, followed by the code of line `i`. A regular line's code names its own
/// speaker and its own localisation key.
pub proof fn lemma_line_block(lines: Seq<LineView>, i: int)
    requires
        0 <= i < lines.len(),
    ensures
        lines_code(lines.take(i + 1)) == lines_code(lines.take(i)) + line_code(lines[i]),
        lines[i] matches LineView::Regular(speaker, key) ==> line_code(lines[i])
            == "\t\t{\n\t\t\t\"type\": Gossip.LineType.REGULAR,\n\t\t\t\"speaker\": \""@ + speaker
            + "\",\n\t\t\t\"contents\": \""@ + key + "\",\n\t\t},\n"@,
{
    assert(lines.take(i + 1).drop_last() == lines.take(i));
    assert(lines.take(i + 1).last() == lines[i]);
    if let LineView::Regular(speaker, key) = lines[i] {
        reveal_strlit("\t\t{\n");
        reveal_strlit("\t\t\t\"type\": Gossip.LineType.REGULAR,\n");
        reveal_strlit("\t\t\t\"speaker\": \"");
        reveal_strlit("\",\n");
        reveal_strlit("\t\t\t\"contents\": \"");
        reveal_strlit("\t\t},\n");
        reveal_strlit("\t\t{\n\t\t\t\"type\": Gossip.LineType.REGULAR,\n\t\t\t\"speaker\": \"");
        reveal_strlit("\",\n\t\t\t\"contents\": \"");
        reveal_strlit("\",\n\t\t},\n");
        assert(line_code(lines[i]) =~= "\t\t{\n\t\t\t\"type\": Gossip.LineType.REGULAR,\n\t\t\t\"speaker\": \""@
            + speaker + "\",\n\t\t\t\"contents\": \""@ + key + "\",\n\t\t},\n"@);
    }
}

pub open spec fn dialogue_code(class_name: Seq<char>, dialogue: Seq<(Seq<char>, Seq<LineView>)>) -> Seq<
    char,
> {
    "class_name "@ + class_name + "\n\n\n"@ + "var dialogue := {\n"@ + fragments_code(dialogue)
        + "}\n"@
}

/// Appends the code of one line.
fn push_line_code(res: &mut String, line: &Line)
    ensures
        final(res)@ == old(res)@ + line_code(line.deep_view()),
{
    res.append("\t\t{\n");
    let ghost start = res@;
    match line {
        Line::Regular(character_identifier, localisation_key) => {
            res.append("\t\t\t\"type\": Gossip.LineType.REGULAR,\n");
            res.append("\t\t\t\"speaker\": \"");
            res.append(character_identifier.as_str());
            res.append("\",\n");
            res.append("\t\t\t\"contents\": \"");
            res.append(localisation_key.as_str());
            res.append("\",\n");
        },
        Line::Choice(character_identifier, choices) => {
            res.append("\t\t\t\"type\": Gossip.LineType.CHOICE,\n");
            res.append("\t\t\t\"speaker\": \"");
            res.append(character_identifier.as_str());
            res.append("\",\n");
            res.append("\t\t\t\"choices\": [\n");
            let ghost cs = choices.deep_view();
            let ghost mid = res@;
            let mut j: usize = 0;
            assert(cs.take(0) =~= Seq::<(Seq<char>, Seq<char>)>::empty());
            assert(res@ =~= mid + choices_code(cs.take(0)));
            while j < choices.len()
                invariant
                    j <= choices.len(),
                    cs == choices.deep_view(),
                    res@ == mid + choices_code(cs.take(j as int)),
                decreases choices.len() - j,
            {
                let (localisation_key, fragment_title) = &choices[j];
                assert(cs.take(j + 1).drop_last() == cs.take(j as int));
                assert(cs.take(j + 1).last() == (localisation_key@, fragment_title@));
                res.append("\t\t\t\t{\n");
                res.append("\t\t\t\t\t\"contents\": \"");
                res.append(localisation_key.as_str());
                res.append("\",\n");
                res.append("\t\t\t\t\t\"target\": \"");
                res.append(fragment_title.as_str());
                res.append("\",\n");
                res.append("\t\t\t\t},\n");
                assert(res@ =~= mid + choices_code(cs.take(j + 1)));
                j = j + 1;
            }
            assert(cs.take(choices.len() as int) == cs);
            res.append("\t\t\t],\n");
        },
        Line::Func(func) => {
            res.append("\t\t\t\"type\": Gossip.LineType.FUNC,\n");
            res.append("\t\t\t\"func\": ");
            res.append(func.as_str());
            res.append(",\n");
        },
    }
    assert(res@ =~= start + line_fields(line.deep_view()));
    res.append("\t\t},\n");
    assert(res@ =~= old(res)@ + line_code(line.deep_view()));
}

/// The script of a dialogue file's class: a `dialogue` dictionary from each
/// fragment title to the list of its lines, each line a dictionary of its
/// type and fields.
pub fn generate_dialogue_code(class_name: String, dialogue: &DialogueMap) -> (res: String)
    ensures
        res@ == dialogue_code(class_name@, dialogue.deep_view()),
{
    let ghost d = dialogue.deep_view();
    let es = dialogue.entries();
    let mut res = String::new();
    res.append("class_name ");
    res.append(class_name.as_str());
    res.append("\n\n\n");
    res.append("var dialogue := {\n");
    let ghost head = res@;
    let mut i: usize = 0;
    assert(d.take(0) =~= Seq::<(Seq<char>, Seq<LineView>)>::empty());
    assert(res@ =~= head + fragments_code(d.take(0)));
    while i < es.len()
        invariant
            i <= es.len(),
            d == es.deep_view(),
            res@ == head + fragments_code(d.take(i as int)),
        decreases es.len() - i,
    {
        let (fragment_title, lines) = &es[i];
        assert(d.take(i + 1).drop_last() == d.take(i as int));
        assert(d.take(i + 1).last() == (fragment_title@, lines.deep_view()));
        let ghost before = res@;
        res.append("\t\"");
        res.append(fragment_title.as_str());
        res.append("\": [\n");
        let ghost ls = lines.deep_view();
        let ghost mid = res@;
        let mut j: usize = 0;
        assert(ls.take(0) =~= Seq::<LineView>::empty());
        assert(res@ =~= mid + lines_code(ls.take(0)));
        while j < lines.len()
            invariant
                j <= lines.len(),
                ls == lines.deep_view(),
                res@ == mid + lines_code(ls.take(j as int)),
            decreases lines.len() - j,
        {
            assert(ls.take(j + 1).drop_last() == ls.take(j as int));
            assert(ls.take(j + 1).last() == lines@[j as int].deep_view());
            push_line_code(&mut res, &lines[j]);
            assert(res@ =~= mid + lines_code(ls.take(j + 1)));
            j = j + 1;
        }
        assert(ls.take(lines.len() as int) == ls);
        res.append("\t],\n");
        assert(res@ =~= before + fragment_code(fragment_title@, ls));
        assert(res@ =~= head + fragments_code(d.take(i + 1)));
        i = i + 1;
    }
    assert(d.take(es.len() as int) == d);
    res.append("}\n");
    assert(res@ =~= dialogue_code(class_name@, d));
    res
}

} // verus!
