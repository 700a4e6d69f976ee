//! Variables: their kinds, the map that holds them, and how a variables file
//! fills that map.
use vstd::prelude::*;
use crate::maps::{has_key, keys_distinct, lemma_get_after_insert, map_get, map_insert, StringMap};
use crate::text::{
    chars_of, literal_value, parse_i32_literal, split_lines, strings_contain, strings_view, Ident,
    IdentView, ParseError,
};
use crate::variables_parser::{
    lemma_definitions_literals, literal_well_formed, variable_definitions, DefinitionKind,
    DefinitionKindView, DefinitionView, VariablesParser,
};

verus! {

/// A variable: an integer with its initial value, or an enum with its
/// possible values and its initial value.
#[derive(Debug, PartialEq, Eq)]
pub enum Variable {
    Int(i32),
    Enum(Vec<String>, String),
}

pub enum VariableView {
    Int(int),
    Enum(Seq<Seq<char>>, Seq<char>),
}

impl DeepView for Variable {
    type V = VariableView;

    open spec fn deep_view(&self) -> VariableView {
        match self {
            Variable::Int(v) => VariableView::Int(*v as int),
            Variable::Enum(values, initial) => VariableView::Enum(strings_view(values@), initial@),
        }
    }
}

/// The variables by name.
pub type VariableMap = StringMap<Variable>;

/// Why a variables file was refused.
#[derive(Debug, PartialEq, Eq)]
pub enum VariablesError {
    /// The file does not follow the grammar.
    Parse(ParseError),
    /// A variable is defined twice (or was already defined).
    DuplicateVariable { file_path: String, identifier: Ident },
    /// An integer's value does not fit an `i32`.
    InvalidInteger { file_path: String, value: Ident },
    /// An enum's initial value is not one of its possible values.
    InvalidInitialisation { file_path: String, value: Ident },
}

pub enum VariablesErrorView {
    Parse(int),
    DuplicateVariable(Seq<char>, IdentView),
    InvalidInteger(Seq<char>, IdentView),
    InvalidInitialisation(Seq<char>, IdentView),
}

impl DeepView for VariablesError {
    type V = VariablesErrorView;

    open spec fn deep_view(&self) -> VariablesErrorView {
        match self {
            VariablesError::Parse(e) => VariablesErrorView::Parse(e.line as int),
            VariablesError::DuplicateVariable { file_path, identifier } =>
                VariablesErrorView::DuplicateVariable(file_path@, identifier.deep_view()),
            VariablesError::InvalidInteger { file_path, value } =>
                VariablesErrorView::InvalidInteger(file_path@, value.deep_view()),
            VariablesError::InvalidInitialisation { file_path, value } =>
                VariablesErrorView::InvalidInitialisation(file_path@, value.deep_view()),
        }
    }
}

/// The variables after one more definition, or why the definition is refused.
pub open spec fn apply_definition(
    file_path: Seq<char>,
    vars: Seq<(Seq<char>, VariableView)>,
    d: DefinitionView,
) -> Result<Seq<(Seq<char>, VariableView)>, VariablesErrorView> {
    if has_key(vars, d.identifier.text) {
        Err(VariablesErrorView::DuplicateVariable(file_path, d.identifier))
    } else {
        match d.kind {
            DefinitionKindView::Int(literal) => {
                let v = literal_value(literal.text);
                if i32::MIN <= v <= i32::MAX {
                    Ok(vars.push((d.identifier.text, VariableView::Int(v))))
                } else {
                    Err(VariablesErrorView::InvalidInteger(file_path, literal))
                }
            },
            DefinitionKindView::Enum(values, initial) => {
                if values.contains(initial.text) {
                    Ok(vars.push((d.identifier.text, VariableView::Enum(values, initial.text))))
                } else {
                    Err(VariablesErrorView::InvalidInitialisation(file_path, initial))
                }
            },
        }
    }
}

/// The variables after each definition in turn, or the first refusal.
pub open spec fn apply_definitions(
    file_path: Seq<char>,
    vars: Seq<(Seq<char>, VariableView)>,
    defs: Seq<DefinitionView>,
) -> Result<Seq<(Seq<char>, VariableView)>, VariablesErrorView>
    decreases defs.len(),
{
    if defs.len() == 0 {
        Ok(vars)
    } else {
        match apply_definitions(file_path, vars, defs.drop_last()) {
            Ok(prev) => apply_definition(file_path, prev, defs.last()),
            Err(e) => Err(e),
        }
    }
}

/// What reading a variables file makes of the variables `vars`.
pub open spec fn variables_outcome(
    file_path: Seq<char>,
    contents: Seq<char>,
    vars: Seq<(Seq<char>, VariableView)>,
) -> Result<Seq<(Seq<char>, VariableView)>, VariablesErrorView> {
    match variable_definitions(contents) {
        Err(k) => Err(VariablesErrorView::Parse(k + 1)),
        Ok(defs) => apply_definitions(file_path, vars, defs),
    }
}

proof fn lemma_apply_error_stays(
    file_path: Seq<char>,
    vars: Seq<(Seq<char>, VariableView)>,
    defs: Seq<DefinitionView>,
    n: int,
)
    requires
        0 <= n <= defs.len(),
        apply_definitions(file_path, vars, defs.take(n)) is Err,
    ensures
        apply_definitions(file_path, vars, defs) == apply_definitions(file_path, vars, defs.take(n)),
    decreases defs.len() - n,
{
    if n < defs.len() {
        assert(defs.take(n + 1).drop_last() == defs.take(n));
        lemma_apply_error_stays(file_path, vars, defs, n + 1);
    } else {
        assert(defs.take(n) == defs);
    }
}

proof fn lemma_apply_extends(
    file_path: Seq<char>,
    vars: Seq<(Seq<char>, VariableView)>,
    defs: Seq<DefinitionView>,
)
    ensures
        apply_definitions(file_path, vars, defs) matches Ok(r) ==> r.len() >= vars.len()
            && r.take(vars.len() as int) == vars,
    decreases defs.len(),
{
    if defs.len() > 0 {
        lemma_apply_extends(file_path, vars, defs.drop_last());
        if let Ok(prev) = apply_definitions(file_path, vars, defs.drop_last()) {
            if let Ok(r) = apply_definition(file_path, prev, defs.last()) {
                assert(r.take(vars.len() as int) =~= prev.take(vars.len() as int));
            }
        }
    } else {
        assert(vars.take(vars.len() as int) == vars);
    }
}

proof fn lemma_apply_keeps_identifiers(
    file_path: Seq<char>,
    vars: Seq<(Seq<char>, VariableView)>,
    defs: Seq<DefinitionView>,
)
    ensures
        apply_definitions(file_path, vars, defs) matches Ok(r) ==> forall|j: int|
            0 <= j < defs.len() ==> has_key(r, #[trigger] defs[j].identifier.text),
    decreases defs.len(),
{
    if defs.len() > 0 {
        lemma_apply_keeps_identifiers(file_path, vars, defs.drop_last());
        if let Ok(prev) = apply_definitions(file_path, vars, defs.drop_last()) {
            if let Ok(r) = apply_definition(file_path, prev, defs.last()) {
                assert forall|j: int| 0 <= j < defs.len() implies has_key(
                    r,
                    #[trigger] defs[j].identifier.text,
                ) by {
                    if j == defs.len() - 1 {
                        assert(r[prev.len() as int].0 == defs[j].identifier.text);
                    } else {
                        assert(defs.drop_last()[j] == defs[j]);
                        assert(has_key(prev, defs[j].identifier.text));
                        let w = choose|w: int| 0 <= w < prev.len() && #[trigger] prev[w].0
                            == defs[j].identifier.text;
                        assert(r[w] == prev[w]);
                    }
                }
            }
        }
    }
}

/// Reading a variables file a second time, into the variables that the first
/// reading gave, is refused: its first definition is already there.
pub proof fn lemma_second_read_refused(
    file_path: Seq<char>,
    contents: Seq<char>,
    vars: Seq<(Seq<char>, VariableView)>,
)
    ensures
        ({
            let defs = variable_definitions(contents);
            let first = variables_outcome(file_path, contents, vars);
            defs is Ok && defs->Ok_0.len() > 0 && first is Ok ==> variables_outcome(
                file_path,
                contents,
                first->Ok_0,
            ) == Err::<Seq<(Seq<char>, VariableView)>, VariablesErrorView>(
                VariablesErrorView::DuplicateVariable(file_path, defs->Ok_0[0].identifier),
            )
        }),
{
    if let Ok(defs) = variable_definitions(contents) {
        if defs.len() > 0 {
            lemma_apply_keeps_identifiers(file_path, vars, defs);
            if let Ok(r) = apply_definitions(file_path, vars, defs) {
                assert(has_key(r, defs[0].identifier.text));
                assert(defs.take(1).drop_last() =~= Seq::<DefinitionView>::empty());
                assert(defs.take(1).last() == defs[0]);
                assert(apply_definitions(file_path, r, defs.take(1).drop_last()) == Ok::<
                    Seq<(Seq<char>, VariableView)>,
                    VariablesErrorView,
                >(r));
                assert(apply_definition(file_path, r, defs[0]) is Err);
                assert(apply_definitions(file_path, r, defs.take(1)) is Err);
                lemma_apply_error_stays(file_path, r, defs, 1);
            }
        }
    }
}

proof fn lemma_apply_as_defined(
    file_path: Seq<char>,
    vars: Seq<(Seq<char>, VariableView)>,
    defs: Seq<DefinitionView>,
)
    ensures
        apply_definitions(file_path, vars, defs) matches Ok(r) ==> {
            &&& forall|j: int|
                0 <= j < defs.len() ==> map_get(r, #[trigger] defs[j].identifier.text) == Some(
                    match defs[j].kind {
                        DefinitionKindView::Int(literal) => VariableView::Int(literal_value(literal.text)),
                        DefinitionKindView::Enum(values, initial) => VariableView::Enum(
                            values,
                            initial.text,
                        ),
                    },
                )
            &&& forall|k: Seq<char>| has_key(vars, k) ==> map_get(r, k) == map_get(vars, k)
        },
    decreases defs.len(),
{
    if defs.len() > 0 {
        let d = defs.drop_last();
        lemma_apply_as_defined(file_path, vars, d);
        if let Ok(r) = apply_definitions(file_path, vars, defs) {
            let prev = apply_definitions(file_path, vars, d)->Ok_0;
            let last = defs.last();
            let id = last.identifier.text;
            assert(!has_key(prev, id));
            let v = r.last().1;
            assert(r == prev.push((id, v)));
            assert(r == map_insert(prev, id, v));
            assert forall|j: int| 0 <= j < defs.len() implies map_get(
                r,
                #[trigger] defs[j].identifier.text,
            ) == Some(
                match defs[j].kind {
                    DefinitionKindView::Int(literal) => VariableView::Int(literal_value(literal.text)),
                    DefinitionKindView::Enum(values, initial) => VariableView::Enum(
                        values,
                        initial.text,
                    ),
                },
            ) by {
                lemma_get_after_insert(prev, id, v, defs[j].identifier.text);
                if j < defs.len() - 1 {
                    assert(d[j] == defs[j]);
                    assert(map_get(prev, defs[j].identifier.text) is Some);
                    assert(has_key(prev, defs[j].identifier.text));
                }
            }
            assert forall|k: Seq<char>| has_key(vars, k) implies map_get(r, k) == map_get(vars, k) by {
                lemma_get_after_insert(prev, id, v, k);
                assert(map_get(vars, k) is Some);
            }
        }
    }
}

/// Reading a variables file defines each variable as its definition is
/// written: an integer with the value of its literal, an enum with the values
/// listed in its braces and, as its initial value, the name written after
/// them. The variables that were already there keep their values.
pub proof fn lemma_variables_as_defined(
    file_path: Seq<char>,
    contents: Seq<char>,
    vars: Seq<(Seq<char>, VariableView)>,
)
    ensures
        variables_outcome(file_path, contents, vars) matches Ok(r) ==> {
            &&& variable_definitions(contents) is Ok
            &&& forall|j: int|
                0 <= j < variable_definitions(contents)->Ok_0.len() ==> map_get(
                    r,
                    #[trigger] variable_definitions(contents)->Ok_0[j].identifier.text,
                ) == Some(
                    match variable_definitions(contents)->Ok_0[j].kind {
                        DefinitionKindView::Int(literal) => VariableView::Int(literal_value(literal.text)),
                        DefinitionKindView::Enum(values, initial) => VariableView::Enum(
                            values,
                            initial.text,
                        ),
                    },
                )
            &&& forall|k: Seq<char>| has_key(vars, k) ==> map_get(r, k) == map_get(vars, k)
        },
{
    if let Ok(defs) = variable_definitions(contents) {
        lemma_apply_as_defined(file_path, vars, defs);
    }
}

/// Whether an enum variable's initial value is one of its possible values.
pub open spec fn initial_value_allowed(v: VariableView) -> bool {
    match v {
        VariableView::Enum(values, initial) => values.contains(initial),
        VariableView::Int(_) => true,
    }
}

proof fn lemma_apply_allowed(
    file_path: Seq<char>,
    vars: Seq<(Seq<char>, VariableView)>,
    defs: Seq<DefinitionView>,
)
    requires
        forall|i: int| 0 <= i < vars.len() ==> initial_value_allowed(#[trigger] vars[i].1),
    ensures
        apply_definitions(file_path, vars, defs) matches Ok(r) ==> forall|i: int|
            0 <= i < r.len() ==> initial_value_allowed(#[trigger] r[i].1),
    decreases defs.len(),
{
    if defs.len() > 0 {
        lemma_apply_allowed(file_path, vars, defs.drop_last());
        if let Ok(prev) = apply_definitions(file_path, vars, defs.drop_last()) {
            if let Ok(r) = apply_definition(file_path, prev, defs.last()) {
                assert forall|i: int| 0 <= i < r.len() implies initial_value_allowed(#[trigger] r[i].1) by {
                    if i < prev.len() {
                        assert(r[i] == prev[i]);
                    }
                }
            }
        }
    }
}

/// Reading a variables file keeps every variable's initial value allowed: an
/// enum variable starts at one of its possible values.
pub proof fn lemma_initial_values_allowed(
    file_path: Seq<char>,
    contents: Seq<char>,
    vars: Seq<(Seq<char>, VariableView)>,
)
    requires
        forall|i: int| 0 <= i < vars.len() ==> initial_value_allowed(#[trigger] vars[i].1),
    ensures
        variables_outcome(file_path, contents, vars) matches Ok(r) ==> forall|i: int|
            0 <= i < r.len() ==> initial_value_allowed(#[trigger] r[i].1),
{
    if let Ok(defs) = variable_definitions(contents) {
        lemma_apply_allowed(file_path, vars, defs);
    }
}

/// Applies a variables file to `variables`: the variables after it, or why it is
/// refused (after a refusal, `variables` holds what was added before it).
fn read_variables(contents: &str, variables: &mut VariableMap, file_path: &str) -> (res: Result<
    (),
    VariablesError,
>)
    ensures
        match variables_outcome(file_path@, contents@, old(variables).deep_view()) {
            Ok(vars) => res is Ok && final(variables).deep_view() == vars,
            Err(e) => res matches Err(x) && x.deep_view() == e,
        },
{
    let defs = match VariablesParser::parse(contents) {
        Ok(defs) => defs,
        Err(e) => {
            return Err(VariablesError::Parse(e));
        },
    };
    let ghost old_vars = variables.deep_view();
    let ghost dv = defs.deep_view();
    proof {
        lemma_definitions_literals(split_lines(contents@));
    }
    let mut i: usize = 0;
    assert(dv.take(0) =~= Seq::<DefinitionView>::empty());
    while i < defs.len()
        invariant
            i <= defs.len(),
            dv == defs.deep_view(),
            forall|k: int| 0 <= k < dv.len() ==> literal_well_formed(#[trigger] dv[k]),
            old_vars == old(variables).deep_view(),
            variable_definitions(contents@) == Ok::<Seq<DefinitionView>, int>(dv),
            apply_definitions(file_path@, old_vars, dv.take(i as int)) == Ok::<
                Seq<(Seq<char>, VariableView)>,
                VariablesErrorView,
            >(variables.deep_view()),
        decreases defs.len() - i,
    {
        let d = &defs[i];
        assert(dv.take(i + 1).drop_last() == dv.take(i as int));
        assert(dv.take(i + 1).last() == d.deep_view());
        proof {
            lemma_apply_extends(file_path@, old_vars, dv.take(i as int));
        }
        let ghost cur = variables.deep_view();
        let outcome: Result<Variable, VariablesError> = if variables.contains_key(
            d.identifier.text.as_str(),
        ) {
            Err(
                VariablesError::DuplicateVariable {
                    file_path: file_path.to_owned(),
                    identifier: d.identifier.duplicate(),
                },
            )
        } else {
            match &d.kind {
                DefinitionKind::Int(literal) => {
                    let lit = chars_of(literal.text.as_str());
                    assert(lit@.subrange(0, lit@.len() as int) == lit@);
                    assert(literal_well_formed(dv[i as int]));
                    match parse_i32_literal(&lit, 0, lit.len()) {
                        Some(v) => Ok(Variable::Int(v)),
                        None => Err(
                            VariablesError::InvalidInteger {
                                file_path: file_path.to_owned(),
                                value: literal.duplicate(),
                            },
                        ),
                    }
                },
                DefinitionKind::Enum(values, initial) => {
                    if strings_contain(values, initial.text.as_str()) {
                        Ok(Variable::Enum(clone_strings(values), initial.text.clone()))
                    } else {
                        Err(
                            VariablesError::InvalidInitialisation {
                                file_path: file_path.to_owned(),
                                value: initial.duplicate(),
                            },
                        )
                    }
                },
            }
        };
        assert(match apply_definition(file_path@, cur, d.deep_view()) {
            Ok(r) => outcome matches Ok(var) && r == cur.push((d.identifier.text@, var.deep_view())),
            Err(e) => outcome matches Err(x) && x.deep_view() == e,
        });
        match outcome {
            Ok(var) => {
                let ghost vv = var.deep_view();
                variables.insert(d.identifier.text.clone(), var);
                assert(variables.deep_view() =~= cur.push((d.identifier.text@, vv)));
            },
            Err(e) => {
                proof {
                    lemma_apply_error_stays(file_path@, old_vars, dv, i + 1);
                }
                return Err(e);
            },
        }
        i = i + 1;
    }
    assert(dv.take(defs.len() as int) == dv);
    Ok(())
}

/// Checks a variables file against the variables already defined: `Ok` when
/// `get_variables` accepts it, otherwise why it is refused (it breaks the
/// grammar, a variable is defined twice or was already defined, an integer does
/// not fit an `i32`, an enum's initial value is not one of its values).
pub fn check_variables(contents: &str, variables: &VariableMap, file_path: &str) -> (res: Result<
    (),
    VariablesError,
>)
    ensures
        match variables_outcome(file_path@, contents@, variables.deep_view()) {
            Ok(_) => res is Ok,
            Err(e) => res matches Err(x) && x.deep_view() == e,
        },
{
    let mut scratch = copy_variables(variables);
    read_variables(contents, &mut scratch, file_path)
}

/// Reads a variables file and adds the variables it defines to `variables`.
///
/// The file must be one that `check_variables` accepts: it follows the
/// variables grammar, defines no variable twice nor one already in
/// `variables`, every integer fits an `i32`, and every enum's initial value is
/// one of its values.
pub fn get_variables(contents: &str, variables: &mut VariableMap, file_path: &str)
    requires
        variables_outcome(file_path@, contents@, old(variables).deep_view()) is Ok,
    ensures
        final(variables).deep_view() == variables_outcome(
            file_path@,
            contents@,
            old(variables).deep_view(),
        )->Ok_0,
{
    let _ = read_variables(contents, variables, file_path);
}

/// A copy of a variable.
fn copy_variable(v: &Variable) -> (res: Variable)
    ensures
        res.deep_view() == v.deep_view(),
{
    match v {
        Variable::Int(x) => Variable::Int(*x),
        Variable::Enum(values, initial) => Variable::Enum(clone_strings(values), initial.clone()),
    }
}

/// A copy of a map of variables.
fn copy_variables(variables: &VariableMap) -> (res: VariableMap)
    ensures
        res.deep_view() == variables.deep_view(),
{
    let es = variables.entries();
    let ghost m = variables.deep_view();
    let mut res: VariableMap = StringMap::new();
    let mut i: usize = 0;
    assert(m.take(0) =~= Seq::<(Seq<char>, VariableView)>::empty());
    while i < es.len()
        invariant
            i <= es.len(),
            m == es.deep_view(),
            keys_distinct(m),
            res.deep_view() == m.take(i as int),
        decreases es.len() - i,
    {
        let ghost before = res.deep_view();
        assert(m.take(i + 1) == before.push(m[i as int]));
        assert(!has_key(before, m[i as int].0)) by {
            if has_key(before, m[i as int].0) {
                let w = choose|w: int| 0 <= w < before.len() && #[trigger] before[w].0 == m[i as int].0;
                assert(before[w] == m[w]);
            }
        }
        res.insert(es[i].0.clone(), copy_variable(&es[i].1));
        i = i + 1;
    }
    assert(m.take(es.len() as int) == m);
    res
}

/// A copy of a vector of strings.
fn clone_strings(values: &Vec<String>) -> (res: Vec<String>)
    ensures
        strings_view(res@) == strings_view(values@),
{
    let mut res: Vec<String> = Vec::new();
    let mut i: usize = 0;
    while i < values.len()
        invariant
            i <= values.len(),
            strings_view(res@) == strings_view(values@).take(i as int),
        decreases values.len() - i,
    {
        let ghost before = strings_view(res@);
        let s = values[i].clone();
        res.push(s);
        assert(strings_view(res@) =~= before.push(values@[i as int]@));
        assert(strings_view(values@).take(i + 1) =~= strings_view(values@).take(i as int).push(values@[i as int]@));
        i = i + 1;
    }
    assert(strings_view(values@).take(values.len() as int) == strings_view(values@));
    res
}

} // verus!
