//! Dialogue: the lines of each fragment, checked against the registered
//! characters and variables, with their texts moved to a localisation map.
use vstd::prelude::*;
use crate::case::{pascal_case, shouty_snake_case, to_pascal_case, to_shouty_snake_case};
use crate::characters::CharacterSet;
use crate::dialogue_parser::{
    dialogue_fragments, Choice, ChoiceView, DialogueItem, DialogueItemView, DialogueParser,
    FragmentView, ParsedFragment, SetKind, StyledSpan, StyledSpanView, TextStyle,
};
use crate::maps::{
    has_key, keys_distinct, lemma_has_key_append, lemma_insert_all_has_keys, map_get, map_insert_all,
    StringMap,
};
use crate::text::{
    lemma_nat_decimal, nat_decimal, push_char, str_eq, strings_contain, usize_to_string, Ident, IdentView, ParseError,
};
use crate::variables::{Variable, VariableMap, VariableView};

verus! {

/// A line of generated dialogue: a character and the localisation key of what
/// they say; a character and their choices (localisation key and target
/// fragment title); or a function to call.
#[derive(Debug, PartialEq, Eq)]
pub enum Line {
    Regular(String, String),
    Choice(String, Vec<(String, String)>),
    Func(String),
}

pub enum LineView {
    Regular(Seq<char>, Seq<char>),
    Choice(Seq<char>, Seq<(Seq<char>, Seq<char>)>),
    Func(Seq<char>),
}

impl DeepView for Line {
    type V = LineView;

    open spec fn deep_view(&self) -> LineView {
        match self {
            Line::Regular(character, key) => LineView::Regular(character@, key@),
            Line::Choice(character, choices) => LineView::Choice(character@, choices.deep_view()),
            Line::Func(f) => LineView::Func(f@),
        }
    }
}

/// The lines of each fragment, by fragment title.
pub type DialogueMap = StringMap<Vec<Line>>;

/// The text of each localisation key.
pub type LocalisationMap = StringMap<String>;

/// Why a dialogue file was refused.
#[derive(Debug, PartialEq, Eq)]
pub enum DialogueError {
    /// The file does not follow the grammar.
    Parse(ParseError),
    /// Two fragments have the same title.
    DuplicateFragmentTitle { file_path: String, title: Ident },
    /// A line names a character that is not registered.
    UnregisteredCharacter { character: Ident },
    /// A choice leads to a title that no fragment of the file has.
    NonexistentTransition { file_path: String, title: Ident },
    /// A `set` line names a variable that is not defined.
    UndefinedVariable { file_path: String, variable: Ident },
    /// A `set` line is refused by `set_mismatch`: it does not fit an integer
    /// variable, or on an enum variable it is not a `set` to a name, or it names
    /// a value whose SHOUTY_SNAKE_CASE form is one of the enum's values.
    TypeMismatch { file_path: String, value: Ident },
}

pub enum DialogueErrorView {
    Parse(int),
    DuplicateFragmentTitle(Seq<char>, IdentView),
    UnregisteredCharacter(IdentView),
    NonexistentTransition(Seq<char>, IdentView),
    UndefinedVariable(Seq<char>, IdentView),
    TypeMismatch(Seq<char>, IdentView),
}

impl DeepView for DialogueError {
    type V = DialogueErrorView;

    open spec fn deep_view(&self) -> DialogueErrorView {
        match self {
            DialogueError::Parse(e) => DialogueErrorView::Parse(e.line as int),
            DialogueError::DuplicateFragmentTitle { file_path, title } =>
                DialogueErrorView::DuplicateFragmentTitle(file_path@, title.deep_view()),
            DialogueError::UnregisteredCharacter { character } =>
                DialogueErrorView::UnregisteredCharacter(character.deep_view()),
            DialogueError::NonexistentTransition { file_path, title } =>
                DialogueErrorView::NonexistentTransition(file_path@, title.deep_view()),
            DialogueError::UndefinedVariable { file_path, variable } =>
                DialogueErrorView::UndefinedVariable(file_path@, variable.deep_view()),
            DialogueError::TypeMismatch { file_path, value } => DialogueErrorView::TypeMismatch(
                file_path@,
                value.deep_view(),
            ),
        }
    }
}

/// BBCode for a span of text in a style.
pub open spec fn decorated(text: Seq<char>, style: TextStyle) -> Seq<char> {
    match style {
        TextStyle::Bold => "[b]"@ + text + "[/b]"@,
        TextStyle::Italic => "[i]"@ + text + "[/i]"@,
        TextStyle::Wave => "[wave amp=50.0 freq=5.0 connected=1]{"@ + text + "}[/wave]"@,
        TextStyle::Shake => "[shake rate=20.0 level=5 connected=1]{"@ + text + "}[/shake]"@,
        TextStyle::Plain => text,
    }
}

/// BBCode for styled text: the decorated spans, one after the other.
pub open spec fn bbcode(spans: Seq<StyledSpanView>) -> Seq<char>
    decreases spans.len(),
{
    if spans.len() == 0 {
        Seq::empty()
    } else {
        bbcode(spans.drop_last()) + decorated(spans.last().text, spans.last().style)
    }
}

/// The localisation key of a line: the file path, the fragment title and the
/// line identifier, separated by spaces.
pub open spec fn localisation_key(file_path: Seq<char>, title: Seq<char>, line_id: Seq<char>) -> Seq<
    char,
> {
    file_path + seq![' '] + title + seq![' '] + line_id
}

/// What the processing of a file's lines reads: the file's path, the titles of
/// its fragments, the registered characters and the defined variables.
pub struct DialogueContext {
    pub file_path: Seq<char>,
    pub titles: Set<Seq<char>>,
    pub characters: Set<Seq<char>>,
    pub variables: Seq<(Seq<char>, VariableView)>,
}

/// The titles of the given fragments.
pub open spec fn titles_of(frags: Seq<FragmentView>) -> Set<Seq<char>> {
    Set::new(|t: Seq<char>| exists|j: int| 0 <= j < frags.len() && #[trigger] frags[j].title.text == t)
}

pub open spec fn context_of(
    file_path: Seq<char>,
    frags: Seq<FragmentView>,
    characters: Set<Seq<char>>,
    variables: Seq<(Seq<char>, VariableView)>,
) -> DialogueContext {
    DialogueContext { file_path, titles: titles_of(frags), characters, variables }
}

/// The choices of line number `counter` (counted from 0 in its fragment): the
/// key and target of each, and the localisation entries they add; or the first
/// choice that leads nowhere.
pub open spec fn choices_outcome(ctx: DialogueContext, counter: int, choices: Seq<ChoiceView>) -> Result<
    (Seq<(Seq<char>, Seq<char>)>, Seq<(Seq<char>, Seq<char>)>),
    DialogueErrorView,
>
    decreases choices.len(),
{
    if choices.len() == 0 {
        Ok((Seq::empty(), Seq::empty()))
    } else {
        match choices_outcome(ctx, counter, choices.drop_last()) {
            Err(e) => Err(e),
            Ok((pairs, locs)) => {
                let c = choices.last();
                if !ctx.titles.contains(c.target.text) {
                    Err(DialogueErrorView::NonexistentTransition(ctx.file_path, c.target))
                } else {
                    let key = localisation_key(
                        ctx.file_path,
                        c.target.text,
                        nat_decimal(counter as nat) + seq![' '] + nat_decimal(
                            (choices.len() - 1) as nat,
                        ),
                    );
                    Ok((pairs.push((key, c.target.text)), locs.push((key, bbcode(c.text)))))
                }
            },
        }
    }
}

/// Whether a `set` line of the given kind and value is refused as a type
/// mismatch: on an integer variable, a `set` to a name; on an enum variable, a
/// `+=`, `-=` or `set` to a number, and also a `set` to a name whose
/// SHOUTY_SNAKE_CASE form is one of the enum's values.
pub open spec fn set_mismatch(kind: SetKind, var: VariableView, value: Seq<char>) -> bool {
    match var {
        VariableView::Int(_) => kind == SetKind::SetEnum,
        VariableView::Enum(values, _) => kind != SetKind::SetEnum || values.contains(
            shouty_snake_case(value),
        ),
    }
}

pub open spec fn set_operator_text(kind: SetKind) -> Seq<char> {
    match kind {
        SetKind::IncInt => "+="@,
        SetKind::DecInt => "-="@,
        _ => "="@,
    }
}

/// The value a `set` line assigns, as generated code writes it.
pub open spec fn set_value_text(kind: SetKind, variable: Seq<char>, value: Seq<char>) -> Seq<char> {
    if kind == SetKind::SetEnum {
        "GossipVariables."@ + pascal_case(variable) + "."@ + shouty_snake_case(value)
    } else {
        shouty_snake_case(value)
    }
}

/// The function that a `set` line becomes.
pub open spec fn set_func(kind: SetKind, variable: Seq<char>, value: Seq<char>) -> Seq<char> {
    "func(): GossipVariables."@ + variable + seq![' '] + set_operator_text(kind) + seq![' ']
        + set_value_text(kind, variable, value)
}

/// The function that an event line becomes.
pub open spec fn event_func(event: Seq<char>) -> Seq<char> {
    "func(): Gossip.event.emit(\""@ + event + "\")"@
}

/// What line number `counter` of the fragment titled `title` becomes, with
/// the localisation entries it adds; or why it is refused.
pub open spec fn item_outcome(
    ctx: DialogueContext,
    title: Seq<char>,
    counter: int,
    item: DialogueItemView,
) -> Result<(LineView, Seq<(Seq<char>, Seq<char>)>), DialogueErrorView> {
    match item {
        DialogueItemView::Choice { character, choices } => {
            if !ctx.characters.contains(character.text) {
                Err(DialogueErrorView::UnregisteredCharacter(character))
            } else {
                match choices_outcome(ctx, counter, choices) {
                    Err(e) => Err(e),
                    Ok((pairs, locs)) => Ok((LineView::Choice(character.text, pairs), locs)),
                }
            }
        },
        DialogueItemView::Regular { character, text } => {
            if !ctx.characters.contains(character.text) {
                Err(DialogueErrorView::UnregisteredCharacter(character))
            } else {
                let key = localisation_key(ctx.file_path, title, nat_decimal(counter as nat));
                Ok((LineView::Regular(character.text, key), seq![(key, bbcode(text))]))
            }
        },
        DialogueItemView::SetVariable { kind, variable, value } => {
            match map_get(ctx.variables, variable.text) {
                None => Err(DialogueErrorView::UndefinedVariable(ctx.file_path, variable)),
                Some(var) => {
                    if set_mismatch(kind, var, value.text) {
                        Err(DialogueErrorView::TypeMismatch(ctx.file_path, value))
                    } else {
                        Ok((LineView::Func(set_func(kind, variable.text, value.text)), Seq::empty()))
                    }
                },
            }
        },
        DialogueItemView::Event { event } => Ok((LineView::Func(event_func(event.text)), Seq::empty())),
    }
}

/// The lines that a fragment's items become, and the localisation entries
/// they add, in order; or the first refusal.
pub open spec fn items_outcome(ctx: DialogueContext, title: Seq<char>, items: Seq<DialogueItemView>) -> Result<
    (Seq<LineView>, Seq<(Seq<char>, Seq<char>)>),
    DialogueErrorView,
>
    decreases items.len(),
{
    if items.len() == 0 {
        Ok((Seq::empty(), Seq::empty()))
    } else {
        match items_outcome(ctx, title, items.drop_last()) {
            Err(e) => Err(e),
            Ok((lines, locs)) => match item_outcome(ctx, title, items.len() - 1, items.last()) {
                Err(e) => Err(e),
                Ok((line, more)) => Ok((lines.push(line), locs + more)),
            },
        }
    }
}

/// The dialogue entries (title and lines) and localisation entries of the
/// fragments, in order; or the first refusal.
pub open spec fn fragments_outcome(ctx: DialogueContext, frags: Seq<FragmentView>) -> Result<
    (Seq<(Seq<char>, Seq<LineView>)>, Seq<(Seq<char>, Seq<char>)>),
    DialogueErrorView,
>
    decreases frags.len(),
{
    if frags.len() == 0 {
        Ok((Seq::empty(), Seq::empty()))
    } else {
        match fragments_outcome(ctx, frags.drop_last()) {
            Err(e) => Err(e),
            Ok((entries, locs)) => {
                let f = frags.last();
                match items_outcome(ctx, f.title.text, f.items) {
                    Err(e) => Err(e),
                    Ok((lines, more)) => Ok((entries.push((f.title.text, lines)), locs + more)),
                }
            },
        }
    }
}

/// The index of the first fragment whose title an earlier fragment already has.
pub open spec fn first_duplicate_title(frags: Seq<FragmentView>) -> Option<int>
    decreases frags.len(),
{
    if frags.len() == 0 {
        None
    } else {
        match first_duplicate_title(frags.drop_last()) {
            Some(k) => Some(k),
            None => {
                if exists|j: int|
                    0 <= j < frags.len() - 1 && #[trigger] frags[j].title.text == frags.last().title.text {
                    Some(frags.len() - 1)
                } else {
                    None
                }
            },
        }
    }
}

/// What reading a dialogue file gives: its dialogue entries and localisation
/// entries, or why it is refused.
pub open spec fn dialogue_outcome(
    file_path: Seq<char>,
    contents: Seq<char>,
    characters: Set<Seq<char>>,
    variables: Seq<(Seq<char>, VariableView)>,
) -> Result<(Seq<(Seq<char>, Seq<LineView>)>, Seq<(Seq<char>, Seq<char>)>), DialogueErrorView> {
    match dialogue_fragments(contents) {
        Err(k) => Err(DialogueErrorView::Parse(k + 1)),
        Ok(frags) => match first_duplicate_title(frags) {
            Some(k) => Err(DialogueErrorView::DuplicateFragmentTitle(file_path, frags[k].title)),
            None => fragments_outcome(context_of(file_path, frags, characters, variables), frags),
        },
    }
}

/// BBCode for a span of text in a style.
pub fn decorate(text: String, style: TextStyle) -> (res: String)
    ensures
        res@ == decorated(text@, style),
{
    match style {
        TextStyle::Bold => {
            let mut res = String::new();
            res.append("[b]");
            res.append(text.as_str());
            res.append("[/b]");
            res
        },
        TextStyle::Italic => {
            let mut res = String::new();
            res.append("[i]");
            res.append(text.as_str());
            res.append("[/i]");
            res
        },
        TextStyle::Wave => {
            let mut res = String::new();
            res.append("[wave amp=50.0 freq=5.0 connected=1]{");
            res.append(text.as_str());
            res.append("}[/wave]");
            res
        },
        TextStyle::Shake => {
            let mut res = String::new();
            res.append("[shake rate=20.0 level=5 connected=1]{");
            res.append(text.as_str());
            res.append("}[/shake]");
            res
        },
        TextStyle::Plain => text,
    }
}

/// BBCode for styled text.
pub fn get_bbcode_text(styled_text: &Vec<StyledSpan>) -> (res: String)
    ensures
        res@ == bbcode(styled_text.deep_view()),
{
    let ghost spans = styled_text.deep_view();
    let mut res = String::new();
    let mut i: usize = 0;
    assert(spans.take(0) =~= Seq::<StyledSpanView>::empty());
    while i < styled_text.len()
        invariant
            i <= styled_text.len(),
            spans == styled_text.deep_view(),
            res@ == bbcode(spans.take(i as int)),
        decreases styled_text.len() - i,
    {
        let span = &styled_text[i];
        let piece = decorate(span.text.clone(), span.style);
        res.append(piece.as_str());
        assert(spans.take(i + 1).drop_last() == spans.take(i as int));
        assert(spans.take(i + 1).last() == span.deep_view());
        i = i + 1;
    }
    assert(spans.take(styled_text.len() as int) == spans);
    res
}

/// The localisation key of a line.
pub fn get_localisation_key(file_path: &str, fragment_title: &str, line_identifier: String) -> (res:
    String)
    ensures
        res@ == localisation_key(file_path@, fragment_title@, line_identifier@),
{
    let mut res = String::new();
    res.append(file_path);
    push_char(&mut res, ' ');
    res.append(fragment_title);
    push_char(&mut res, ' ');
    res.append(line_identifier.as_str());
    res
}

/// Checks that a line's character is registered. An unregistered character is
/// refused: the caller must pass a registered one.
pub fn check_is_character_valid(character_identifier: &Ident, characters: &CharacterSet)
    requires
        characters@.contains(character_identifier.text@),
{
}

/// The refusal of a line whose character is not registered, if it is not.
fn character_error(character_identifier: &Ident, characters: &CharacterSet) -> (res: Option<
    DialogueError,
>)
    ensures
        res is None <==> characters@.contains(character_identifier.text@),
        res matches Some(e) ==> e.deep_view() == DialogueErrorView::UnregisteredCharacter(
            character_identifier.deep_view(),
        ),
{
    if characters.contains(character_identifier.text.as_str()) {
        check_is_character_valid(character_identifier, characters);
        None
    } else {
        Some(DialogueError::UnregisteredCharacter { character: character_identifier.duplicate() })
    }
}

/// Whether one of the fragments has the title `t`.
fn has_title(frags: &Vec<ParsedFragment>, t: &str) -> (b: bool)
    ensures
        b == titles_of(frags.deep_view()).contains(t@),
{
    let ghost fv = frags.deep_view();
    let mut i: usize = 0;
    while i < frags.len()
        invariant
            i <= frags.len(),
            fv == frags.deep_view(),
            forall|j: int| 0 <= j < i ==> #[trigger] fv[j].title.text != t@,
        decreases frags.len() - i,
    {
        if str_eq(frags[i].title.text.as_str(), t) {
            assert(fv[i as int].title.text == t@);
            return true;
        }
        i = i + 1;
    }
    false
}

/// The localisation identifier of choice `j` of line `counter`.
fn choice_identifier(counter: usize, j: usize) -> (res: String)
    ensures
        res@ == nat_decimal(counter as nat) + seq![' '] + nat_decimal(j as nat),
{
    let mut res = usize_to_string(counter);
    push_char(&mut res, ' ');
    let second = usize_to_string(j);
    res.append(second.as_str());
    res
}

/// The value that a `set` line assigns.
fn set_value(kind: SetKind, variable: &str, value: &str) -> (res: String)
    ensures
        res@ == set_value_text(kind, variable@, value@),
{
    let shouty = to_shouty_snake_case(value);
    if kind == SetKind::SetEnum {
        let mut res = String::new();
        res.append("GossipVariables.");
        let pascal = to_pascal_case(variable);
        res.append(pascal.as_str());
        res.append(".");
        res.append(shouty.as_str());
        res
    } else {
        shouty
    }
}

/// The function that a `set` line becomes.
fn set_function(kind: SetKind, variable: &str, value: &str) -> (res: String)
    ensures
        res@ == set_func(kind, variable@, value@),
{
    let mut res = String::new();
    res.append("func(): GossipVariables.");
    res.append(variable);
    push_char(&mut res, ' ');
    match kind {
        SetKind::IncInt => res.append("+="),
        SetKind::DecInt => res.append("-="),
        _ => res.append("="),
    }
    push_char(&mut res, ' ');
    let v = set_value(kind, variable, value);
    res.append(v.as_str());
    res
}

/// The function that an event line becomes.
fn event_function(event: &str) -> (res: String)
    ensures
        res@ == event_func(event@),
{
    let mut res = String::new();
    res.append("func(): Gossip.event.emit(\"");
    res.append(event);
    res.append("\")");
    res
}

/// Whether a `set` line of the given kind and value is refused as a type
/// mismatch: on an integer variable, a `set` to a name; on an enum variable, a
/// `+=`, `-=` or `set` to a number, and also a `set` to a name whose
/// SHOUTY_SNAKE_CASE form is one of the enum's values.
fn is_set_mismatch(kind: SetKind, var: &Variable, value: &str) -> (b: bool)
    ensures
        b == set_mismatch(kind, var.deep_view(), value@),
{
    match var {
        Variable::Int(_) => kind == SetKind::SetEnum,
        Variable::Enum(values, _) => {
            if kind != SetKind::SetEnum {
                true
            } else {
                let shouty = to_shouty_snake_case(value);
                strings_contain(values, shouty.as_str())
            }
        },
    }
}

/// Processes the choices of line `counter`, adding their localisation entries
/// to `locs`.
fn process_choices(
    choices: &Vec<Choice>,
    counter: usize,
    file_path: &str,
    frags: &Vec<ParsedFragment>,
    locs: &mut Vec<(String, String)>,
    Ghost(ctx): Ghost<DialogueContext>,
) -> (res: Result<Vec<(String, String)>, DialogueError>)
    requires
        ctx.file_path == file_path@,
        ctx.titles == titles_of(frags.deep_view()),
    ensures
        match choices_outcome(ctx, counter as int, choices.deep_view()) {
            Ok((pairs, more)) => res matches Ok(v) && v.deep_view() == pairs
                && final(locs).deep_view() == old(locs).deep_view() + more,
            Err(e) => res matches Err(x) && x.deep_view() == e,
        },
{
    let ghost cv = choices.deep_view();
    let mut pairs: Vec<(String, String)> = Vec::new();
    let mut j: usize = 0;
    assert(cv.take(0) =~= Seq::<ChoiceView>::empty());
    assert(pairs.deep_view() =~= Seq::<(Seq<char>, Seq<char>)>::empty());
    assert(locs.deep_view() =~= old(locs).deep_view() + Seq::<(Seq<char>, Seq<char>)>::empty());
    while j < choices.len()
        invariant
            j <= choices.len(),
            cv == choices.deep_view(),
            ctx.file_path == file_path@,
            ctx.titles == titles_of(frags.deep_view()),
            choices_outcome(ctx, counter as int, cv.take(j as int)) matches Ok((ps, more))
                && ps == pairs.deep_view() && locs.deep_view() == old(locs).deep_view() + more,
        decreases choices.len() - j,
    {
        let choice = &choices[j];
        assert(cv.take(j + 1).drop_last() == cv.take(j as int));
        assert(cv.take(j + 1).last() == choice.deep_view());
        let ghost ps_before = pairs.deep_view();
        let ghost locs_before = locs.deep_view();
        if !has_title(frags, choice.target.text.as_str()) {
            proof {
                lemma_choices_error_stays(ctx, counter as int, cv, j + 1);
            }
            return Err(
                DialogueError::NonexistentTransition {
                    file_path: file_path.to_owned(),
                    title: choice.target.duplicate(),
                },
            );
        }
        let key = get_localisation_key(
            file_path,
            choice.target.text.as_str(),
            choice_identifier(counter, j),
        );
        let text = get_bbcode_text(&choice.text);
        let ghost kv = key@;
        let ghost tv = text@;
        locs.push((key.clone(), text));
        pairs.push((key, choice.target.text.clone()));
        assert(pairs.deep_view() =~= ps_before.push((kv, choice.target.text@)));
        assert(locs.deep_view() =~= locs_before.push((kv, tv)));
        proof {
            if let Ok((ps, more)) = choices_outcome(ctx, counter as int, cv.take(j as int)) {
                assert(old(locs).deep_view() + more.push((kv, tv)) =~= locs_before.push((kv, tv)));
            }
        }
        j = j + 1;
    }
    assert(cv.take(choices.len() as int) == cv);
    Ok(pairs)
}

proof fn lemma_choices_error_stays(ctx: DialogueContext, counter: int, cs: Seq<ChoiceView>, n: int)
    requires
        0 <= n <= cs.len(),
        choices_outcome(ctx, counter, cs.take(n)) is Err,
    ensures
        choices_outcome(ctx, counter, cs) == choices_outcome(ctx, counter, cs.take(n)),
    decreases cs.len() - n,
{
    if n < cs.len() {
        assert(cs.take(n + 1).drop_last() == cs.take(n));
        lemma_choices_error_stays(ctx, counter, cs, n + 1);
    } else {
        assert(cs.take(n) == cs);
    }
}

/// Processes line `counter` of the fragment titled `fragment_title`, adding
/// its localisation entries to `locs`.
fn process_item(
    item: &DialogueItem,
    fragment_title: &str,
    counter: usize,
    file_path: &str,
    frags: &Vec<ParsedFragment>,
    characters: &CharacterSet,
    variables: &VariableMap,
    locs: &mut Vec<(String, String)>,
    Ghost(ctx): Ghost<DialogueContext>,
) -> (res: Result<Line, DialogueError>)
    requires
        ctx == context_of(file_path@, frags.deep_view(), characters@, variables.deep_view()),
    ensures
        match item_outcome(ctx, fragment_title@, counter as int, item.deep_view()) {
            Ok((line, more)) => res matches Ok(l) && l.deep_view() == line
                && final(locs).deep_view() == old(locs).deep_view() + more,
            Err(e) => res matches Err(x) && x.deep_view() == e,
        },
{
    match item {
        DialogueItem::Choice { character, choices } => {
            if let Some(e) = character_error(character, characters) {
                return Err(e);
            }
            let pairs = match process_choices(choices, counter, file_path, frags, locs, Ghost(ctx)) {
                Ok(p) => p,
                Err(e) => {
                    return Err(e);
                },
            };
            Ok(Line::Choice(character.text.clone(), pairs))
        },
        DialogueItem::Regular { character, text } => {
            if let Some(e) = character_error(character, characters) {
                return Err(e);
            }
            let key = get_localisation_key(file_path, fragment_title, usize_to_string(counter));
            let bb = get_bbcode_text(text);
            let ghost kv = key@;
            let ghost bv = bb@;
            locs.push((key.clone(), bb));
            assert(locs.deep_view() =~= old(locs).deep_view() + seq![(kv, bv)]);
            Ok(Line::Regular(character.text.clone(), key))
        },
        DialogueItem::SetVariable { kind, variable, value } => {
            match variables.get(variable.text.as_str()) {
                None => Err(
                    DialogueError::UndefinedVariable {
                        file_path: file_path.to_owned(),
                        variable: variable.duplicate(),
                    },
                ),
                Some(var) => {
                    if is_set_mismatch(*kind, var, value.text.as_str()) {
                        Err(
                            DialogueError::TypeMismatch {
                                file_path: file_path.to_owned(),
                                value: value.duplicate(),
                            },
                        )
                    } else {
                        assert(locs.deep_view() =~= old(locs).deep_view() + Seq::<
                            (Seq<char>, Seq<char>),
                        >::empty());
                        Ok(
                            Line::Func(
                                set_function(*kind, variable.text.as_str(), value.text.as_str()),
                            ),
                        )
                    }
                },
            }
        },
        DialogueItem::Event { event } => {
            assert(locs.deep_view() =~= old(locs).deep_view() + Seq::<(Seq<char>, Seq<char>)>::empty());
            Ok(Line::Func(event_function(event.text.as_str())))
        },
    }
}

proof fn lemma_items_error_stays(ctx: DialogueContext, title: Seq<char>, items: Seq<DialogueItemView>, n: int)
    requires
        0 <= n <= items.len(),
        items_outcome(ctx, title, items.take(n)) is Err,
    ensures
        items_outcome(ctx, title, items) == items_outcome(ctx, title, items.take(n)),
    decreases items.len() - n,
{
    if n < items.len() {
        assert(items.take(n + 1).drop_last() == items.take(n));
        lemma_items_error_stays(ctx, title, items, n + 1);
    } else {
        assert(items.take(n) == items);
    }
}

proof fn lemma_fragments_error_stays(ctx: DialogueContext, frags: Seq<FragmentView>, n: int)
    requires
        0 <= n <= frags.len(),
        fragments_outcome(ctx, frags.take(n)) is Err,
    ensures
        fragments_outcome(ctx, frags) == fragments_outcome(ctx, frags.take(n)),
    decreases frags.len() - n,
{
    if n < frags.len() {
        assert(frags.take(n + 1).drop_last() == frags.take(n));
        lemma_fragments_error_stays(ctx, frags, n + 1);
    } else {
        assert(frags.take(n) == frags);
    }
}

proof fn lemma_duplicate_stays(frags: Seq<FragmentView>, n: int)
    requires
        0 <= n <= frags.len(),
        first_duplicate_title(frags.take(n)) is Some,
    ensures
        first_duplicate_title(frags) == first_duplicate_title(frags.take(n)),
    decreases frags.len() - n,
{
    if n < frags.len() {
        assert(frags.take(n + 1).drop_last() == frags.take(n));
        lemma_duplicate_stays(frags, n + 1);
    } else {
        assert(frags.take(n) == frags);
    }
}

/// The lines of each fragment of a dialogue file under the fragment's title,
/// and the text of each line and choice under its localisation key; or why the
/// file is refused.
fn dialogue_entries(
    contents: &str,
    characters: &CharacterSet,
    variables: &VariableMap,
    file_path: &str,
) -> (res: Result<(Vec<(String, Vec<Line>)>, Vec<(String, String)>), DialogueError>)
    ensures
        match dialogue_outcome(file_path@, contents@, characters@, variables.deep_view()) {
            Ok((entries, locs)) => res matches Ok((e, l)) && e.deep_view() == entries
                && l.deep_view() == locs,
            Err(e) => res matches Err(x) && x.deep_view() == e,
        },
{
    let frags = match DialogueParser::parse(contents) {
        Ok(frags) => frags,
        Err(e) => {
            return Err(DialogueError::Parse(e));
        },
    };
    let ghost fv = frags.deep_view();
    // No title may stand twice.
    let mut k: usize = 0;
    assert(fv.take(0) =~= Seq::<FragmentView>::empty());
    while k < frags.len()
        invariant
            k <= frags.len(),
            fv == frags.deep_view(),
            first_duplicate_title(fv.take(k as int)) is None,
            dialogue_fragments(contents@) == Ok::<Seq<FragmentView>, int>(fv),
        decreases frags.len() - k,
    {
        assert(fv.take(k + 1).drop_last() == fv.take(k as int));
        let mut j: usize = 0;
        while j < k
            invariant
                j <= k < frags.len(),
                fv == frags.deep_view(),
                forall|m: int| 0 <= m < j ==> #[trigger] fv[m].title.text != fv[k as int].title.text,
                first_duplicate_title(fv.take(k as int)) is None,
                fv.take(k + 1).drop_last() == fv.take(k as int),
                dialogue_fragments(contents@) == Ok::<Seq<FragmentView>, int>(fv),
                    decreases k - j,
        {
            if str_eq(frags[j].title.text.as_str(), frags[k].title.text.as_str()) {
                proof {
                    assert(fv.take(k + 1)[j as int].title.text == fv.take(k + 1).last().title.text);
                    lemma_duplicate_stays(fv, k + 1);
                }
                return Err(
                    DialogueError::DuplicateFragmentTitle {
                        file_path: file_path.to_owned(),
                        title: frags[k].title.duplicate(),
                    },
                );
            }
            j = j + 1;
        }
        proof {
            let t = fv.take(k + 1);
            assert forall|m: int| 0 <= m < t.len() - 1 implies #[trigger] t[m].title.text
                != t.last().title.text by {
                assert(t[m] == fv[m]);
            }
        }
        k = k + 1;
    }
    assert(fv.take(frags.len() as int) == fv);
    // Each fragment's lines, and the localisation entries, in order.
    let ghost ctx = context_of(file_path@, fv, characters@, variables.deep_view());
    let mut entries: Vec<(String, Vec<Line>)> = Vec::new();
    let mut locs: Vec<(String, String)> = Vec::new();
    let mut f: usize = 0;
    assert(entries.deep_view() =~= Seq::<(Seq<char>, Seq<LineView>)>::empty());
    assert(locs.deep_view() =~= Seq::<(Seq<char>, Seq<char>)>::empty());
    while f < frags.len()
        invariant
            f <= frags.len(),
            fv == frags.deep_view(),
            ctx == context_of(file_path@, fv, characters@, variables.deep_view()),
            fragments_outcome(ctx, fv.take(f as int)) matches Ok((es, ls)) && es
                == entries.deep_view() && ls == locs.deep_view(),
            first_duplicate_title(fv) is None,
            dialogue_fragments(contents@) == Ok::<Seq<FragmentView>, int>(fv),
        decreases frags.len() - f,
    {
        let frag = &frags[f];
        let ghost items = frag.items.deep_view();
        let ghost title = frag.title.text@;
        let ghost locs_start = locs.deep_view();
        assert(fv.take(f + 1).drop_last() == fv.take(f as int));
        assert(fv.take(f + 1).last() == frag.deep_view());
        let mut lines: Vec<Line> = Vec::new();
        let mut c: usize = 0;
        assert(items.take(0) =~= Seq::<DialogueItemView>::empty());
        assert(lines.deep_view() =~= Seq::<LineView>::empty());
        assert(locs.deep_view() =~= locs_start + Seq::<(Seq<char>, Seq<char>)>::empty());
        while c < frag.items.len()
            invariant
                c <= frag.items.len(),
                frag == &frags[f as int],
                f < frags.len(),
                fv == frags.deep_view(),
                items == frag.items.deep_view(),
                title == frag.title.text@,
                ctx == context_of(file_path@, fv, characters@, variables.deep_view()),
                items_outcome(ctx, title, items.take(c as int)) matches Ok((lv, more)) && lv
                    == lines.deep_view() && locs.deep_view() == locs_start + more,
                fragments_outcome(ctx, fv.take(f as int)) matches Ok((es, ls)) && ls == locs_start,
                fv.take(f + 1).drop_last() == fv.take(f as int),
                fv.take(f + 1).last() == frag.deep_view(),
                first_duplicate_title(fv) is None,
                dialogue_fragments(contents@) == Ok::<Seq<FragmentView>, int>(fv),
                    decreases frag.items.len() - c,
        {
            assert(items.take(c + 1).drop_last() == items.take(c as int));
            assert(items.take(c + 1).last() == frag.items@[c as int].deep_view());
            let ghost lines_before = lines.deep_view();
            let ghost locs_before = locs.deep_view();
            match process_item(
                &frag.items[c],
                frag.title.text.as_str(),
                c,
                file_path,
                &frags,
                characters,
                variables,
                &mut locs,
                Ghost(ctx),
            ) {
                Ok(line) => {
                    let ghost lv = line.deep_view();
                    lines.push(line);
                    assert(lines.deep_view() =~= lines_before.push(lv));
                    proof {
                        if let Ok((lv0, more)) = items_outcome(ctx, title, items.take(c as int)) {
                            if let Ok((l1, more1)) = item_outcome(ctx, title, c as int, items[c as int]) {
                                assert(locs.deep_view() =~= locs_start + (more + more1));
                            }
                        }
                    }
                },
                Err(e) => {
                    proof {
                        lemma_items_error_stays(ctx, title, items, c + 1);
                        lemma_fragments_error_stays(ctx, fv, f + 1);
                    }
                    return Err(e);
                },
            }
            c = c + 1;
        }
        assert(items.take(frag.items.len() as int) == items);
        let ghost ev_before = entries.deep_view();
        let ghost lines_view = lines.deep_view();
        entries.push((frag.title.text.clone(), lines));
        assert(entries.deep_view() =~= ev_before.push((title, lines_view)));
        f = f + 1;
    }
    assert(fv.take(frags.len() as int) == fv);
    Ok((entries, locs))
}

/// Checks a dialogue file against the registered `characters` and the defined
/// `variables`: `Ok` when `get_dialogue` accepts it, otherwise why it is
/// refused (it breaks the grammar, two fragments share a title, a line names an
/// unregistered character, a choice leads to a title that no fragment has, a
/// `set` line names an undefined variable, or is refused by `set_mismatch`).
pub fn check_dialogue(
    contents: &str,
    characters: &CharacterSet,
    variables: &VariableMap,
    file_path: &str,
) -> (res: Result<(), DialogueError>)
    ensures
        match dialogue_outcome(file_path@, contents@, characters@, variables.deep_view()) {
            Ok(_) => res is Ok,
            Err(e) => res matches Err(x) && x.deep_view() == e,
        },
{
    match dialogue_entries(contents, characters, variables, file_path) {
        Ok(_) => Ok(()),
        Err(e) => Err(e),
    }
}

/// Reads a dialogue file: puts the lines of each fragment into `dialogue` under
/// the fragment's title, and the text of each line and choice into
/// `localisation_map` under its localisation key.
///
/// The file must be one that `check_dialogue` accepts.
pub fn get_dialogue(
    contents: &str,
    dialogue: &mut DialogueMap,
    characters: &CharacterSet,
    variables: &VariableMap,
    localisation_map: &mut LocalisationMap,
    file_path: &str,
)
    requires
        dialogue_outcome(file_path@, contents@, characters@, variables.deep_view()) is Ok,
    ensures
        final(dialogue).deep_view() == map_insert_all(
            old(dialogue).deep_view(),
            dialogue_outcome(file_path@, contents@, characters@, variables.deep_view())->Ok_0.0,
        ),
        final(localisation_map).deep_view() == map_insert_all(
            old(localisation_map).deep_view(),
            dialogue_outcome(file_path@, contents@, characters@, variables.deep_view())->Ok_0.1,
        ),
{
    let (entries, locs) = match dialogue_entries(contents, characters, variables, file_path) {
        Ok(p) => p,
        Err(_) => {
            return;
        },
    };
    let ghost es = entries.deep_view();
    let ghost ls = locs.deep_view();
    let ghost old_d = dialogue.deep_view();
    let ghost old_l = localisation_map.deep_view();
    let ghost orig_entries = entries@;
    assert(es.take(0) =~= Seq::<(Seq<char>, Seq<LineView>)>::empty());
    for entry in it: entries.into_iter()
        invariant
            it.seq() == orig_entries,
            es.len() == orig_entries.len(),
            forall|m: int| 0 <= m < es.len() ==> #[trigger] es[m] == (orig_entries[m].0@, orig_entries[m].1.deep_view()),
            dialogue.deep_view() == map_insert_all(old_d, es.take(it.index() as int)),
    {
        let (title, lines) = entry;
        let ghost i = it.index();
        dialogue.insert(title, lines);
        assert(es.take(i + 1).drop_last() == es.take(i as int));
    }
    assert(es.take(es.len() as int) == es);
    let ghost orig_locs = locs@;
    assert(ls.take(0) =~= Seq::<(Seq<char>, Seq<char>)>::empty());
    for loc in it: locs.into_iter()
        invariant
            it.seq() == orig_locs,
            ls.len() == orig_locs.len(),
            forall|m: int| 0 <= m < ls.len() ==> #[trigger] ls[m] == (orig_locs[m].0@, orig_locs[m].1@),
            localisation_map.deep_view() == map_insert_all(old_l, ls.take(it.index() as int)),
    {
        let (key, text) = loc;
        let ghost i = it.index();
        localisation_map.insert(key, text);
        assert(ls.take(i + 1).drop_last() == ls.take(i as int));
    }
    assert(ls.take(ls.len() as int) == ls);
}

/// The localisation keys that a line uses.
pub open spec fn line_keys(line: LineView) -> Seq<Seq<char>> {
    match line {
        LineView::Regular(_, key) => seq![key],
        LineView::Choice(_, pairs) => pairs.map_values(|p: (Seq<char>, Seq<char>)| p.0),
        LineView::Func(_) => Seq::empty(),
    }
}

/// The fragment titles that a line leads to.
pub open spec fn line_targets(line: LineView) -> Seq<Seq<char>> {
    match line {
        LineView::Choice(_, pairs) => pairs.map_values(|p: (Seq<char>, Seq<char>)| p.1),
        _ => Seq::empty(),
    }
}

proof fn lemma_choices_refs(ctx: DialogueContext, counter: int, cs: Seq<ChoiceView>)
    ensures
        choices_outcome(ctx, counter, cs) matches Ok((pairs, locs)) ==> forall|i: int|
            0 <= i < pairs.len() ==> has_key(locs, #[trigger] pairs[i].0) && ctx.titles.contains(
                pairs[i].1,
            ),
    decreases cs.len(),
{
    if cs.len() > 0 {
        lemma_choices_refs(ctx, counter, cs.drop_last());
        if let Ok((pairs, locs)) = choices_outcome(ctx, counter, cs) {
            let (p0, l0) = choices_outcome(ctx, counter, cs.drop_last())->Ok_0;
            assert forall|i: int| 0 <= i < pairs.len() implies has_key(locs, #[trigger] pairs[i].0)
                && ctx.titles.contains(pairs[i].1) by {
                if i < pairs.len() - 1 {
                    assert(pairs[i] == p0[i]);
                    lemma_has_key_append(l0, seq![locs.last()], pairs[i].0);
                    assert(locs == l0 + seq![locs.last()]);
                } else {
                    assert(locs[l0.len() as int].0 == pairs[i].0);
                }
            }
        }
    }
}

proof fn lemma_item_refs(ctx: DialogueContext, title: Seq<char>, counter: int, item: DialogueItemView)
    ensures
        item_outcome(ctx, title, counter, item) matches Ok((line, more)) ==> (forall|k: int|
            0 <= k < line_keys(line).len() ==> has_key(more, #[trigger] line_keys(line)[k])) && (
        forall|k: int|
            0 <= k < line_targets(line).len() ==> ctx.titles.contains(
                #[trigger] line_targets(line)[k],
            )),
{
    if let Ok((line, more)) = item_outcome(ctx, title, counter, item) {
        match item {
            DialogueItemView::Choice { character, choices } => {
                lemma_choices_refs(ctx, counter, choices);
                let (pairs, locs) = choices_outcome(ctx, counter, choices)->Ok_0;
                assert forall|k: int| 0 <= k < line_keys(line).len() implies has_key(
                    more,
                    #[trigger] line_keys(line)[k],
                ) by {
                    assert(line_keys(line)[k] == pairs[k].0);
                }
                assert forall|k: int| 0 <= k < line_targets(line).len() implies ctx.titles.contains(
                    #[trigger] line_targets(line)[k],
                ) by {
                    assert(line_targets(line)[k] == pairs[k].1);
                    assert(has_key(locs, pairs[k].0));
                }
            },
            DialogueItemView::Regular { .. } => {
                assert(more[0].0 == line_keys(line)[0]);
            },
            _ => {},
        }
    }
}

proof fn lemma_items_refs(ctx: DialogueContext, title: Seq<char>, items: Seq<DialogueItemView>)
    ensures
        items_outcome(ctx, title, items) matches Ok((lines, locs)) ==> (forall|l: int, k: int|
            0 <= l < lines.len() && 0 <= k < line_keys(lines[l]).len() ==> has_key(
                locs,
                #[trigger] line_keys(lines[l])[k],
            )) && (forall|l: int, k: int|
            0 <= l < lines.len() && 0 <= k < line_targets(lines[l]).len() ==> ctx.titles.contains(
                #[trigger] line_targets(lines[l])[k],
            )),
    decreases items.len(),
{
    if items.len() > 0 {
        lemma_items_refs(ctx, title, items.drop_last());
        lemma_item_refs(ctx, title, items.len() - 1, items.last());
        if let Ok((lines, locs)) = items_outcome(ctx, title, items) {
            let (l0, locs0) = items_outcome(ctx, title, items.drop_last())->Ok_0;
            let (line, more) = item_outcome(ctx, title, items.len() - 1, items.last())->Ok_0;
            assert forall|l: int, k: int|
                0 <= l < lines.len() && 0 <= k < line_keys(lines[l]).len() implies has_key(
                locs,
                #[trigger] line_keys(lines[l])[k],
            ) by {
                lemma_has_key_append(locs0, more, line_keys(lines[l])[k]);
                if l < lines.len() - 1 {
                    assert(lines[l] == l0[l]);
                }
            }
            assert forall|l: int, k: int|
                0 <= l < lines.len() && 0 <= k < line_targets(lines[l]).len() implies ctx.titles.contains(
                #[trigger] line_targets(lines[l])[k],
            ) by {
                if l < lines.len() - 1 {
                    assert(lines[l] == l0[l]);
                }
            }
        }
    }
}

proof fn lemma_fragments_refs(ctx: DialogueContext, frags: Seq<FragmentView>)
    ensures
        fragments_outcome(ctx, frags) matches Ok((entries, locs)) ==> {
            &&& entries.len() == frags.len()
            &&& forall|j: int| 0 <= j < entries.len() ==> #[trigger] entries[j].0 == frags[j].title.text
            &&& forall|j: int, l: int, k: int|
                0 <= j < entries.len() && 0 <= l < entries[j].1.len() && 0 <= k < line_keys(
                    entries[j].1[l],
                ).len() ==> has_key(locs, #[trigger] line_keys(entries[j].1[l])[k])
            &&& forall|j: int, l: int, k: int|
                0 <= j < entries.len() && 0 <= l < entries[j].1.len() && 0 <= k < line_targets(
                    entries[j].1[l],
                ).len() ==> ctx.titles.contains(#[trigger] line_targets(entries[j].1[l])[k])
        },
    decreases frags.len(),
{
    if frags.len() > 0 {
        lemma_fragments_refs(ctx, frags.drop_last());
        let f = frags.last();
        lemma_items_refs(ctx, f.title.text, f.items);
        if let Ok((entries, locs)) = fragments_outcome(ctx, frags) {
            let (e0, locs0) = fragments_outcome(ctx, frags.drop_last())->Ok_0;
            let (lines, more) = items_outcome(ctx, f.title.text, f.items)->Ok_0;
            assert forall|j: int| 0 <= j < entries.len() implies #[trigger] entries[j].0
                == frags[j].title.text by {
                if j < entries.len() - 1 {
                    assert(entries[j] == e0[j]);
                    assert(frags.drop_last()[j] == frags[j]);
                }
            }
            assert forall|j: int, l: int, k: int|
                0 <= j < entries.len() && 0 <= l < entries[j].1.len() && 0 <= k < line_keys(
                    entries[j].1[l],
                ).len() implies has_key(locs, #[trigger] line_keys(entries[j].1[l])[k]) by {
                lemma_has_key_append(locs0, more, line_keys(entries[j].1[l])[k]);
                if j < entries.len() - 1 {
                    assert(entries[j] == e0[j]);
                }
            }
            assert forall|j: int, l: int, k: int|
                0 <= j < entries.len() && 0 <= l < entries[j].1.len() && 0 <= k < line_targets(
                    entries[j].1[l],
                ).len() implies ctx.titles.contains(#[trigger] line_targets(entries[j].1[l])[k]) by {
                if j < entries.len() - 1 {
                    assert(entries[j] == e0[j]);
                }
            }
        }
    }
}

/// Every localisation key that the lines read from a dialogue file use has a
/// text in the localisation map afterwards, whatever the map held before.
pub proof fn lemma_keys_have_texts(
    file_path: Seq<char>,
    contents: Seq<char>,
    characters: Set<Seq<char>>,
    variables: Seq<(Seq<char>, VariableView)>,
    localisation: Seq<(Seq<char>, Seq<char>)>,
)
    ensures
        dialogue_outcome(file_path, contents, characters, variables) matches Ok((entries, locs))
            ==> forall|j: int, l: int, k: int|
            0 <= j < entries.len() && 0 <= l < entries[j].1.len() && 0 <= k < line_keys(
                entries[j].1[l],
            ).len() ==> has_key(
                map_insert_all(localisation, locs),
                #[trigger] line_keys(entries[j].1[l])[k],
            ),
{
    if let Ok(frags) = dialogue_fragments(contents) {
        if first_duplicate_title(frags) is None {
            let ctx = context_of(file_path, frags, characters, variables);
            lemma_fragments_refs(ctx, frags);
            if let Ok((entries, locs)) = fragments_outcome(ctx, frags) {
                assert forall|j: int, l: int, k: int|
                    0 <= j < entries.len() && 0 <= l < entries[j].1.len() && 0 <= k < line_keys(
                        entries[j].1[l],
                    ).len() implies has_key(
                    map_insert_all(localisation, locs),
                    #[trigger] line_keys(entries[j].1[l])[k],
                ) by {
                    let key = line_keys(entries[j].1[l])[k];
                    assert(has_key(locs, key));
                    let w = choose|w: int| 0 <= w < locs.len() && #[trigger] locs[w].0 == key;
                    lemma_insert_all_has_keys(localisation, locs, w);
                }
            }
        }
    }
}

/// Every choice read from a dialogue file leads to a fragment that the
/// dialogue map holds afterwards, whatever the map held before.
pub proof fn lemma_choices_lead_to_fragments(
    file_path: Seq<char>,
    contents: Seq<char>,
    characters: Set<Seq<char>>,
    variables: Seq<(Seq<char>, VariableView)>,
    dialogue: Seq<(Seq<char>, Seq<LineView>)>,
)
    ensures
        dialogue_outcome(file_path, contents, characters, variables) matches Ok((entries, locs))
            ==> forall|j: int, l: int, k: int|
            0 <= j < entries.len() && 0 <= l < entries[j].1.len() && 0 <= k < line_targets(
                entries[j].1[l],
            ).len() ==> has_key(
                map_insert_all(dialogue, entries),
                #[trigger] line_targets(entries[j].1[l])[k],
            ),
{
    if let Ok(frags) = dialogue_fragments(contents) {
        if first_duplicate_title(frags) is None {
            let ctx = context_of(file_path, frags, characters, variables);
            lemma_fragments_refs(ctx, frags);
            if let Ok((entries, locs)) = fragments_outcome(ctx, frags) {
                assert forall|j: int, l: int, k: int|
                    0 <= j < entries.len() && 0 <= l < entries[j].1.len() && 0 <= k
                        < line_targets(entries[j].1[l]).len() implies has_key(
                    map_insert_all(dialogue, entries),
                    #[trigger] line_targets(entries[j].1[l])[k],
                ) by {
                    let t = line_targets(entries[j].1[l])[k];
                    assert(titles_of(frags).contains(t));
                    let w = choose|w: int| 0 <= w < frags.len() && #[trigger] frags[w].title.text == t;
                    assert(entries[w].0 == t);
                    lemma_insert_all_has_keys(dialogue, entries, w);
                }
            }
        }
    }
}

proof fn lemma_no_duplicate_distinct(frags: Seq<FragmentView>)
    ensures
        first_duplicate_title(frags) is None ==> forall|i: int, j: int|
            0 <= i < frags.len() && 0 <= j < frags.len() && i != j ==> #[trigger] frags[i].title.text
                != #[trigger] frags[j].title.text,
    decreases frags.len(),
{
    if frags.len() > 0 {
        lemma_no_duplicate_distinct(frags.drop_last());
        if first_duplicate_title(frags) is None {
            assert forall|i: int, j: int|
                0 <= i < frags.len() && 0 <= j < frags.len() && i != j implies #[trigger] frags[i].title.text
                != #[trigger] frags[j].title.text by {
                let n = frags.len() - 1;
                if i < n && j < n {
                    assert(frags.drop_last()[i] == frags[i]);
                    assert(frags.drop_last()[j] == frags[j]);
                } else if i == n {
                    if frags[j].title.text == frags.last().title.text {
                        assert(exists|m: int| 0 <= m < frags.len() - 1 && #[trigger] frags[m].title.text
                            == frags.last().title.text);
                    }
                } else {
                    if frags[i].title.text == frags.last().title.text {
                        assert(exists|m: int| 0 <= m < frags.len() - 1 && #[trigger] frags[m].title.text
                            == frags.last().title.text);
                    }
                }
            }
        }
    }
}

/// The fragments read from a dialogue file have distinct titles, so each
/// fragment's lines stand under a title of their own.
pub proof fn lemma_titles_distinct(
    file_path: Seq<char>,
    contents: Seq<char>,
    characters: Set<Seq<char>>,
    variables: Seq<(Seq<char>, VariableView)>,
)
    ensures
        dialogue_outcome(file_path, contents, characters, variables) matches Ok((entries, locs))
            ==> keys_distinct(entries),
{
    if let Ok(frags) = dialogue_fragments(contents) {
        if first_duplicate_title(frags) is None {
            let ctx = context_of(file_path, frags, characters, variables);
            lemma_fragments_refs(ctx, frags);
            lemma_no_duplicate_distinct(frags);
            if let Ok((entries, locs)) = fragments_outcome(ctx, frags) {
                assert forall|i: int, j: int|
                    0 <= i < entries.len() && 0 <= j < entries.len() && i != j implies #[trigger] entries[i].0
                    != #[trigger] entries[j].0 by {
                    assert(entries[i].0 == frags[i].title.text);
                    assert(entries[j].0 == frags[j].title.text);
                }
            }
        }
    }
}

/// Each item of a fragment becomes the line at its own position, and the
/// localisation entries it adds are among those of the fragment.
proof fn lemma_items_each(ctx: DialogueContext, title: Seq<char>, items: Seq<DialogueItemView>)
    ensures
        items_outcome(ctx, title, items) matches Ok((lines, locs)) ==> {
            &&& lines.len() == items.len()
            &&& forall|l: int|
                0 <= l < items.len() ==> (#[trigger] item_outcome(ctx, title, l, items[l]) matches Ok(
                    (line, more),
                ) && lines[l] == line && forall|m: int| 0 <= m < more.len() ==> locs.contains(more[m]))
        },
    decreases items.len(),
{
    if items.len() > 0 {
        let d = items.drop_last();
        lemma_items_each(ctx, title, d);
        if let Ok((lines, locs)) = items_outcome(ctx, title, items) {
            let (lines0, locs0) = items_outcome(ctx, title, d)->Ok_0;
            let (line1, more1) = item_outcome(ctx, title, items.len() - 1, items.last())->Ok_0;
            assert forall|l: int| 0 <= l < items.len() implies #[trigger] item_outcome(
                ctx,
                title,
                l,
                items[l],
            ) matches Ok((line, more)) && lines[l] == line && forall|m: int|
                0 <= m < more.len() ==> locs.contains(more[m]) by {
                if l < items.len() - 1 {
                    assert(d[l] == items[l]);
                    let (line, more) = item_outcome(ctx, title, l, items[l])->Ok_0;
                    assert forall|m: int| 0 <= m < more.len() implies locs.contains(more[m]) by {
                        assert(locs0.contains(more[m]));
                        let w = choose|w: int| 0 <= w < locs0.len() && locs0[w] == more[m];
                        assert(locs[w] == locs0[w]);
                    }
                } else {
                    assert forall|m: int| 0 <= m < more1.len() implies locs.contains(more1[m]) by {
                        assert(locs[locs0.len() + m] == more1[m]);
                    }
                }
            }
        }
    }
}

/// Each fragment becomes the entry at its own position, holding the lines of
/// its items, and the localisation entries of its items are among those of
/// the file.
proof fn lemma_fragments_each(ctx: DialogueContext, frags: Seq<FragmentView>)
    ensures
        fragments_outcome(ctx, frags) matches Ok((entries, locs)) ==> {
            &&& entries.len() == frags.len()
            &&& forall|j: int|
                0 <= j < frags.len() ==> (#[trigger] items_outcome(
                    ctx,
                    frags[j].title.text,
                    frags[j].items,
                ) matches Ok((lines, more)) && entries[j] == (frags[j].title.text, lines) && forall|
                    m: int,
                | 0 <= m < more.len() ==> locs.contains(more[m]))
        },
    decreases frags.len(),
{
    if frags.len() > 0 {
        let d = frags.drop_last();
        lemma_fragments_each(ctx, d);
        if let Ok((entries, locs)) = fragments_outcome(ctx, frags) {
            let (entries0, locs0) = fragments_outcome(ctx, d)->Ok_0;
            let f = frags.last();
            let (lines1, more1) = items_outcome(ctx, f.title.text, f.items)->Ok_0;
            assert forall|j: int| 0 <= j < frags.len() implies #[trigger] items_outcome(
                ctx,
                frags[j].title.text,
                frags[j].items,
            ) matches Ok((lines, more)) && entries[j] == (frags[j].title.text, lines) && forall|
                m: int,
            | 0 <= m < more.len() ==> locs.contains(more[m]) by {
                if j < frags.len() - 1 {
                    assert(d[j] == frags[j]);
                    let (lines, more) = items_outcome(ctx, frags[j].title.text, frags[j].items)->Ok_0;
                    assert(entries[j] == entries0[j]);
                    assert forall|m: int| 0 <= m < more.len() implies locs.contains(more[m]) by {
                        assert(locs0.contains(more[m]));
                        let w = choose|w: int| 0 <= w < locs0.len() && locs0[w] == more[m];
                        assert(locs[w] == locs0[w]);
                    }
                } else {
                    assert forall|m: int| 0 <= m < more1.len() implies locs.contains(more1[m]) by {
                        assert(locs[locs0.len() + m] == more1[m]);
                    }
                }
            }
        }
    }
}

/// A regular line of a dialogue file becomes a line spoken by its character
/// under the key made of the file path, the fragment's title and the line's
/// position in the fragment (counted from 0), separated by spaces; its text,
/// in BBCode, goes into the localisation entries under that key.
pub proof fn lemma_regular_line_keys(
    file_path: Seq<char>,
    contents: Seq<char>,
    characters: Set<Seq<char>>,
    variables: Seq<(Seq<char>, VariableView)>,
)
    ensures
        dialogue_outcome(file_path, contents, characters, variables) matches Ok((entries, locs))
            ==> dialogue_fragments(contents) matches Ok(frags) && entries.len() == frags.len()
            && forall|j: int, l: int|
            0 <= j < frags.len() && 0 <= l < frags[j].items.len() ==> (
            #[trigger] frags[j].items[l] matches DialogueItemView::Regular { character, text } ==> {
                let key = file_path + seq![' '] + frags[j].title.text + seq![' '] + nat_decimal(
                    l as nat,
                );
                &&& l < entries[j].1.len()
                &&& entries[j].1[l] == LineView::Regular(character.text, key)
                &&& locs.contains((key, bbcode(text)))
            }),
{
    if let Ok(frags) = dialogue_fragments(contents) {
        if first_duplicate_title(frags) is None {
            let ctx = context_of(file_path, frags, characters, variables);
            lemma_fragments_each(ctx, frags);
            if let Ok((entries, locs)) = fragments_outcome(ctx, frags) {
                assert forall|j: int, l: int|
                    0 <= j < frags.len() && 0 <= l < frags[j].items.len() implies (
                #[trigger] frags[j].items[l] matches DialogueItemView::Regular { character, text }
                    ==> {
                    let key = file_path + seq![' '] + frags[j].title.text + seq![' '] + nat_decimal(
                        l as nat,
                    );
                    &&& l < entries[j].1.len()
                    &&& entries[j].1[l] == LineView::Regular(character.text, key)
                    &&& locs.contains((key, bbcode(text)))
                }) by {
                    let title = frags[j].title.text;
                    assert(items_outcome(ctx, title, frags[j].items) is Ok);
                    let (lines, more) = items_outcome(ctx, title, frags[j].items)->Ok_0;
                    lemma_items_each(ctx, title, frags[j].items);
                    assert(item_outcome(ctx, title, l, frags[j].items[l]) is Ok);
                    let (line, more1) = item_outcome(ctx, title, l, frags[j].items[l])->Ok_0;
                    if let DialogueItemView::Regular { character, text } = frags[j].items[l] {
                        assert(more1[0] == more1[0]);
                        assert(more.contains(more1[0]));
                        let w = choose|w: int| 0 <= w < more.len() && more[w] == more1[0];
                        assert(locs.contains(more[w]));
                    }
                }
            }
        }
    }
}

/// No two regular lines of one fragment share a localisation key, so neither
/// line's text replaces the other's.
pub proof fn lemma_regular_keys_distinct(
    file_path: Seq<char>,
    contents: Seq<char>,
    characters: Set<Seq<char>>,
    variables: Seq<(Seq<char>, VariableView)>,
)
    ensures
        dialogue_outcome(file_path, contents, characters, variables) matches Ok((entries, locs))
            ==> forall|j: int, l1: int, l2: int|
            0 <= j < entries.len() && 0 <= l1 < entries[j].1.len() && 0 <= l2 < entries[j].1.len()
                && l1 != l2 && (#[trigger] entries[j].1[l1]) is Regular && (
            #[trigger] entries[j].1[l2]) is Regular ==> entries[j].1[l1]->Regular_1
                != entries[j].1[l2]->Regular_1,
{
    lemma_regular_line_keys(file_path, contents, characters, variables);
    if let Ok(frags) = dialogue_fragments(contents) {
        if first_duplicate_title(frags) is None {
            let ctx = context_of(file_path, frags, characters, variables);
            lemma_fragments_each(ctx, frags);
            if let Ok((entries, locs)) = fragments_outcome(ctx, frags) {
                assert forall|j: int, l1: int, l2: int|
                    0 <= j < entries.len() && 0 <= l1 < entries[j].1.len() && 0 <= l2
                        < entries[j].1.len() && l1 != l2 && (#[trigger] entries[j].1[l1]) is Regular
                        && (#[trigger] entries[j].1[l2]) is Regular implies entries[j].1[l1]->Regular_1
                    != entries[j].1[l2]->Regular_1 by {
                    let title = frags[j].title.text;
                    let items = frags[j].items;
                    lemma_items_each(ctx, title, items);
                    let (lines, more) = items_outcome(ctx, title, items)->Ok_0;
                    assert(entries[j].1 == lines);
                    // Only a regular item becomes a regular line.
                    assert(items[l1] is Regular) by {
                        assert(item_outcome(ctx, title, l1, items[l1]) is Ok);
                    }
                    assert(items[l2] is Regular) by {
                        assert(item_outcome(ctx, title, l2, items[l2]) is Ok);
                    }
                    assert(frags[j].items[l1] == items[l1]);
                    assert(frags[j].items[l2] == items[l2]);
                    let prefix = file_path + seq![' '] + title + seq![' '];
                    let k1 = prefix + nat_decimal(l1 as nat);
                    let k2 = prefix + nat_decimal(l2 as nat);
                    if k1 == k2 {
                        assert(k1.subrange(prefix.len() as int, k1.len() as int) =~= nat_decimal(
                            l1 as nat,
                        ));
                        assert(k2.subrange(prefix.len() as int, k2.len() as int) =~= nat_decimal(
                            l2 as nat,
                        ));
                        lemma_nat_decimal(l1 as nat);
                        lemma_nat_decimal(l2 as nat);
                    }
                }
            }
        }
    }
}

/// The choices of line `counter` become, in order, their keys with their own
/// targets, and their texts under those keys; a key is made of the path, the
/// target, the line's and the choice's positions, separated by spaces.
proof fn lemma_choices_each(ctx: DialogueContext, counter: int, choices: Seq<ChoiceView>)
    requires
        counter >= 0,
    ensures
        choices_outcome(ctx, counter, choices) matches Ok((pairs, locs)) ==> {
            &&& pairs.len() == choices.len()
            &&& locs.len() == choices.len()
            &&& forall|m: int|
                0 <= m < choices.len() ==> {
                    let key = ctx.file_path + seq![' '] + choices[m].target.text + seq![' ']
                        + nat_decimal(counter as nat) + seq![' '] + nat_decimal(m as nat);
                    &&& #[trigger] pairs[m] == (key, choices[m].target.text)
                    &&& locs[m] == (key, bbcode(choices[m].text))
                }
        },
    decreases choices.len(),
{
    if choices.len() > 0 {
        let d = choices.drop_last();
        lemma_choices_each(ctx, counter, d);
        if let Ok((pairs, locs)) = choices_outcome(ctx, counter, choices) {
            let (pairs0, locs0) = choices_outcome(ctx, counter, d)->Ok_0;
            assert forall|m: int| 0 <= m < choices.len() implies {
                let key = ctx.file_path + seq![' '] + choices[m].target.text + seq![' ']
                    + nat_decimal(counter as nat) + seq![' '] + nat_decimal(m as nat);
                &&& #[trigger] pairs[m] == (key, choices[m].target.text)
                &&& locs[m] == (key, bbcode(choices[m].text))
            } by {
                if m < choices.len() - 1 {
                    assert(d[m] == choices[m]);
                    assert(pairs[m] == pairs0[m]);
                    assert(locs[m] == locs0[m]);
                } else {
                    let c = choices.last();
                    assert(localisation_key(
                        ctx.file_path,
                        c.target.text,
                        nat_decimal(counter as nat) + seq![' '] + nat_decimal(m as nat),
                    ) =~= ctx.file_path + seq![' '] + c.target.text + seq![' '] + nat_decimal(
                        counter as nat,
                    ) + seq![' '] + nat_decimal(m as nat));
                }
            }
        }
    }
}

/// A choice line of a dialogue file becomes a line spoken by its character
/// whose choices are, in order, each choice's key and its own target; the key
/// of choice `m` of the line at position `l` is made of the file path, the
/// choice's target, `l` and `m`, separated by spaces, and the choice's text, in
/// BBCode, goes into the localisation entries under that key.
pub proof fn lemma_choice_line_keys(
    file_path: Seq<char>,
    contents: Seq<char>,
    characters: Set<Seq<char>>,
    variables: Seq<(Seq<char>, VariableView)>,
)
    ensures
        dialogue_outcome(file_path, contents, characters, variables) matches Ok((entries, locs))
            ==> dialogue_fragments(contents) matches Ok(frags) && entries.len() == frags.len()
            && forall|j: int, l: int|
            0 <= j < frags.len() && 0 <= l < frags[j].items.len() ==> (
            #[trigger] frags[j].items[l] matches DialogueItemView::Choice { character, choices }
                ==> l < entries[j].1.len() && (entries[j].1[l] matches LineView::Choice(
                speaker,
                pairs,
            ) && speaker == character.text && pairs.len() == choices.len() && forall|m: int|
                0 <= m < choices.len() ==> {
                    let key = file_path + seq![' '] + choices[m].target.text + seq![' ']
                        + nat_decimal(l as nat) + seq![' '] + nat_decimal(m as nat);
                    &&& #[trigger] pairs[m] == (key, choices[m].target.text)
                    &&& locs.contains((key, bbcode(choices[m].text)))
                })),
{
    if let Ok(frags) = dialogue_fragments(contents) {
        if first_duplicate_title(frags) is None {
            let ctx = context_of(file_path, frags, characters, variables);
            lemma_fragments_each(ctx, frags);
            if let Ok((entries, locs)) = fragments_outcome(ctx, frags) {
                assert forall|j: int, l: int|
                    0 <= j < frags.len() && 0 <= l < frags[j].items.len() implies (
                #[trigger] frags[j].items[l] matches DialogueItemView::Choice { character, choices }
                    ==> l < entries[j].1.len() && (entries[j].1[l] matches LineView::Choice(
                    speaker,
                    pairs,
                ) && speaker == character.text && pairs.len() == choices.len() && forall|m: int|
                    0 <= m < choices.len() ==> {
                        let key = file_path + seq![' '] + choices[m].target.text + seq![' ']
                            + nat_decimal(l as nat) + seq![' '] + nat_decimal(m as nat);
                        &&& #[trigger] pairs[m] == (key, choices[m].target.text)
                        &&& locs.contains((key, bbcode(choices[m].text)))
                    })) by {
                    let title = frags[j].title.text;
                    assert(items_outcome(ctx, title, frags[j].items) is Ok);
                    let (lines, more) = items_outcome(ctx, title, frags[j].items)->Ok_0;
                    lemma_items_each(ctx, title, frags[j].items);
                    assert(item_outcome(ctx, title, l, frags[j].items[l]) is Ok);
                    let (line, more1) = item_outcome(ctx, title, l, frags[j].items[l])->Ok_0;
                    if let DialogueItemView::Choice { character, choices } = frags[j].items[l] {
                        lemma_choices_each(ctx, l, choices);
                        let (pairs, locs1) = choices_outcome(ctx, l, choices)->Ok_0;
                        assert(more1 == locs1);
                        assert forall|m: int| 0 <= m < choices.len() implies locs.contains(
                            locs1[m],
                        ) by {
                            assert(more.contains(more1[m]));
                            let w = choose|w: int| 0 <= w < more.len() && more[w] == more1[m];
                            assert(locs.contains(more[w]));
                        }
                    }
                }
            }
        }
    }
}

} // verus!
