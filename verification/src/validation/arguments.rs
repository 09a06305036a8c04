//! Whether two fields are given the same arguments.
use vstd::prelude::*;

use crate::ast;
use crate::ast::{find_argument, Argument, Field, NodeLocation, ValueView};
use crate::diagnostics::{
    ApolloDiagnostic, DataView, DiagnosticData, DiagnosticView, Label, LabelView,
};
use crate::lookup;
use crate::validation::shape::Comparison;

verus! {

/// Whether `others` does not give the argument the same value: it gives it none, or another one.
pub open spec fn argument_differs(argument: Argument, others: Seq<Argument>) -> bool {
    match ast::argument_named(others, argument.name@) {
        Some(other) => other.value@ != argument.value@,
        None => true,
    }
}

/// The first argument to which `others` does not give the same value.
pub open spec fn first_different(arguments: Seq<Argument>, others: Seq<Argument>) -> Option<
    Argument,
> {
    lookup::first_match(arguments, |argument: Argument| argument_differs(argument, others))
}

/// The first argument to which `others` gives no value.
pub open spec fn first_missing(arguments: Seq<Argument>, others: Seq<Argument>) -> Option<
    Argument,
> {
    lookup::first_match(
        arguments,
        |argument: Argument| ast::argument_named(others, argument.name@) is None,
    )
}

/// The conflict between two fields that are given different arguments.
pub open spec fn argument_conflict(
    a: Field,
    b: Field,
    first: Option<NodeLocation>,
    first_text: Seq<char>,
    second: Option<NodeLocation>,
    second_text: Seq<char>,
) -> Comparison {
    match (first, second) {
        (Some(first), Some(second)) => Comparison::Conflict(
            DiagnosticView {
                location: b.location->0,
                data: DataView::ConflictingField {
                    field: a.name@,
                    original_selection: a.location->0,
                    redefined_selection: b.location->0,
                },
                labels: seq![
                    LabelView { location: first, text: first_text },
                    LabelView { location: second, text: second_text },
                ],
                help: Some(
                    "Fields with the same response name must provide the same set of arguments. Consider adding an alias if you need to select fields with different arguments."@,
                ),
            },
        ),
        _ => Comparison::Undetermined,
    }
}

/// How the arguments of two fields compare.
///
/// The order of the arguments does not matter. The first argument of `a` that `b` does not give
/// the same value is reported; where there is none, the first argument of `b` that `a` does not
/// give.
pub open spec fn argument_comparison(a: Field, b: Field) -> Comparison {
    if a.location is None || b.location is None {
        Comparison::Undetermined
    } else {
        match first_different(a.arguments@, b.arguments@) {
            Some(argument) => match ast::argument_named(b.arguments@, argument.name@) {
                None => argument_conflict(
                    a,
                    b,
                    argument.location,
                    "field `"@ + a.name@ + "` is selected with argument `"@ + argument.name@
                        + "` here"@,
                    b.location,
                    "but argument `"@ + argument.name@ + "` is not provided here"@,
                ),
                Some(other) => argument_conflict(
                    a,
                    b,
                    argument.location,
                    "field `"@ + a.name@ + "` provides one argument value here"@,
                    other.location,
                    "but a different value here"@,
                ),
            },
            None => match first_missing(b.arguments@, a.arguments@) {
                Some(argument) => argument_conflict(
                    a,
                    b,
                    argument.location,
                    "field `"@ + b.name@ + "` is selected with argument `"@ + argument.name@
                        + "` here"@,
                    a.location,
                    "but argument `"@ + argument.name@ + "` is not provided here"@,
                ),
                None => Comparison::Same,
            },
        }
    }
}

/// The values that the arguments give, by name. Of arguments with the same name the first counts.
pub open spec fn argument_values(arguments: Seq<Argument>) -> Map<Seq<char>, ValueView> {
    Map::new(
        |name: Seq<char>| ast::argument_named(arguments, name) is Some,
        |name: Seq<char>| ast::argument_named(arguments, name)->0.value@,
    )
}

/// Whether no two of the arguments have the same name.
pub open spec fn distinct_names(arguments: Seq<Argument>) -> bool {
    forall|i: int, j: int|
        0 <= i < j < arguments.len() ==> (#[trigger] arguments[i]).name@ != (
        #[trigger] arguments[j]).name@
}

proof fn lemma_argument_named(arguments: Seq<Argument>, argument: Argument)
    requires
        arguments.contains(argument),
    ensures
        ast::argument_named(arguments, argument.name@) is Some,
        distinct_names(arguments) ==> ast::argument_named(arguments, argument.name@) == Some(
            argument,
        ),
{
    let named = ast::argument_has_name(argument.name@);
    lookup::lemma_first_match(arguments, named);
    let i = choose|i: int| 0 <= i < arguments.len() && arguments[i] == argument;
    assert(named(arguments[i]));
    let found = ast::argument_named(arguments, argument.name@)->0;
    let j = choose|j: int| 0 <= j < arguments.len() && arguments[j] == found;
    if distinct_names(arguments) {
        assert(i == j);
    }
}

/// Fields that are given the same arguments are given the same values by name.
pub proof fn lemma_same_values(a: Field, b: Field)
    requires
        argument_comparison(a, b) is Same,
    ensures
        argument_values(a.arguments@) == argument_values(b.arguments@),
{
    let args_a = a.arguments@;
    let args_b = b.arguments@;
    let values_a = argument_values(args_a);
    let values_b = argument_values(args_b);
    let differs = |argument: Argument| argument_differs(argument, args_b);
    let missing = |argument: Argument| ast::argument_named(args_a, argument.name@) is None;
    lookup::lemma_first_match(args_a, differs);
    lookup::lemma_first_match(args_b, missing);
    assert forall|name: Seq<char>| #[trigger]
        values_a.contains_key(name) == values_b.contains_key(name) && (values_a.contains_key(name)
            ==> values_a[name] == values_b[name]) by {
        lookup::lemma_first_match(args_a, ast::argument_has_name(name));
        lookup::lemma_first_match(args_b, ast::argument_has_name(name));
        if values_a.contains_key(name) {
            let x = ast::argument_named(args_a, name)->0;
            let i = choose|i: int| 0 <= i < args_a.len() && args_a[i] == x;
            assert(!differs(args_a[i]));
        }
        if values_b.contains_key(name) {
            let y = ast::argument_named(args_b, name)->0;
            let j = choose|j: int| 0 <= j < args_b.len() && args_b[j] == y;
            assert(!missing(args_b[j]));
        }
    }
    assert(values_a =~= values_b);
}

/// Two located fields are given the same arguments exactly where they are given the same values by
/// name: the order of the arguments does not matter. No argument of the first field may be given
/// twice.
pub proof fn lemma_same_arguments(a: Field, b: Field)
    requires
        a.location is Some,
        b.location is Some,
        distinct_names(a.arguments@),
    ensures
        argument_comparison(a, b) is Same <==> argument_values(a.arguments@) == argument_values(
            b.arguments@,
        ),
{
    let args_a = a.arguments@;
    let args_b = b.arguments@;
    let values_a = argument_values(args_a);
    let values_b = argument_values(args_b);
    if argument_comparison(a, b) is Same {
        lemma_same_values(a, b);
    }
    if values_a == values_b {
        let differs = |argument: Argument| argument_differs(argument, args_b);
        let missing = |argument: Argument| ast::argument_named(args_a, argument.name@) is None;
        lookup::lemma_first_match(args_a, differs);
        lookup::lemma_first_match(args_b, missing);
        if let Some(argument) = first_different(args_a, args_b) {
            lemma_argument_named(args_a, argument);
            assert(values_a.contains_key(argument.name@));
            assert(values_a[argument.name@] == argument.value@);
            assert(values_b[argument.name@] == argument.value@);
        } else if let Some(argument) = first_missing(args_b, args_a) {
            lemma_argument_named(args_b, argument);
            assert(values_b.contains_key(argument.name@));
            assert(values_a.contains_key(argument.name@));
        }
    }
}

/// Whether the value that arguments give to a name is the same, or is given by neither.
pub open spec fn given_alike(a: Seq<Argument>, b: Seq<Argument>, name: Seq<char>) -> bool {
    match (ast::argument_named(a, name), ast::argument_named(b, name)) {
        (Some(x), Some(y)) => x.value@ == y.value@,
        (None, None) => true,
        _ => false,
    }
}

/// Arguments conflict only where an argument of one of the fields is not given alike by the other:
/// that argument's place is the first that the diagnostic points at, and the diagnostic is put at
/// the second field.
pub proof fn lemma_argument_conflict_has_a_reason(a: Field, b: Field) -> (argument: Argument)
    requires
        argument_comparison(a, b) is Conflict,
        distinct_names(a.arguments@),
    ensures
        a.arguments@.contains(argument) || b.arguments@.contains(argument),
        !given_alike(a.arguments@, b.arguments@, argument.name@),
        ({
            let diagnostic = argument_comparison(a, b)->Conflict_0;
            &&& argument.location == Some(diagnostic.labels[0].location)
            &&& b.location == Some(diagnostic.location)
            &&& diagnostic.data is ConflictingField
            &&& diagnostic.data->field == a.name@
            &&& a.location == Some(diagnostic.data->original_selection)
            &&& b.location == Some(diagnostic.data->redefined_selection)
            &&& diagnostic.labels.len() == 2
            &&& ast::argument_named(b.arguments@, argument.name@) is None ==> {
                &&& Some(diagnostic.labels[1].location) == b.location
                &&& diagnostic.labels[0].text == "field `"@ + a.name@
                    + "` is selected with argument `"@ + argument.name@ + "` here"@
                &&& diagnostic.labels[1].text == "but argument `"@ + argument.name@
                    + "` is not provided here"@
            }
            &&& ast::argument_named(a.arguments@, argument.name@) is None ==> {
                &&& Some(diagnostic.labels[1].location) == a.location
                &&& diagnostic.labels[0].text == "field `"@ + b.name@
                    + "` is selected with argument `"@ + argument.name@ + "` here"@
                &&& diagnostic.labels[1].text == "but argument `"@ + argument.name@
                    + "` is not provided here"@
            }
            &&& ast::argument_named(a.arguments@, argument.name@) is Some && ast::argument_named(
                b.arguments@,
                argument.name@,
            ) is Some ==> {
                &&& Some(diagnostic.labels[1].location) == ast::argument_named(
                    b.arguments@,
                    argument.name@,
                )->0.location
                &&& diagnostic.labels[0].text == "field `"@ + a.name@
                    + "` provides one argument value here"@
                &&& diagnostic.labels[1].text == "but a different value here"@
            }
            &&& diagnostic.help == Some(
                "Fields with the same response name must provide the same set of arguments. Consider adding an alias if you need to select fields with different arguments."@,
            )
        }),
{
    let args_a = a.arguments@;
    let args_b = b.arguments@;
    let differs = |argument: Argument| argument_differs(argument, args_b);
    let missing = |argument: Argument| ast::argument_named(args_a, argument.name@) is None;
    lookup::lemma_first_match(args_a, differs);
    lookup::lemma_first_match(args_b, missing);
    if let Some(argument) = first_different(args_a, args_b) {
        lemma_argument_named(args_a, argument);
        argument
    } else {
        let argument = first_missing(args_b, args_a)->0;
        lemma_argument_named(args_b, argument);
        argument
    }
}

fn argument_conflict_diagnostic(
    field_a: &Field,
    field_b: &Field,
    first: Option<NodeLocation>,
    first_text: String,
    second: Option<NodeLocation>,
    second_text: String,
) -> (result: ApolloDiagnostic)
    requires
        field_a.location is Some,
        field_b.location is Some,
        first is Some,
        second is Some,
    ensures
        argument_conflict(*field_a, *field_b, first, first_text@, second, second_text@)
            == Comparison::Conflict(result@),
{
    let location_a = field_a.location.unwrap();
    let location_b = field_b.location.unwrap();
    let first = first.unwrap();
    let second = second.unwrap();
    let diagnostic = ApolloDiagnostic::new(
        location_b,
        DiagnosticData::ConflictingField {
            field: field_a.name.clone(),
            original_selection: location_a,
            redefined_selection: location_b,
        },
    ).label(Label::new(first, first_text)).label(Label::new(second, second_text)).help(
        "Fields with the same response name must provide the same set of arguments. Consider adding an alias if you need to select fields with different arguments.",
    );
    assert(diagnostic@.labels =~= seq![
        LabelView { location: first, text: first_text@ },
        LabelView { location: second, text: second_text@ },
    ]);
    diagnostic
}

fn selected_with(field: &Field, argument: &Argument) -> (result: String)
    ensures
        result@ == "field `"@ + field.name@ + "` is selected with argument `"@ + argument.name@
            + "` here"@,
{
    let mut text = "field `".to_owned();
    text.append(field.name.as_str());
    text.append("` is selected with argument `");
    text.append(argument.name.as_str());
    text.append("` here");
    text
}

fn not_provided(argument: &Argument) -> (result: String)
    ensures
        result@ == "but argument `"@ + argument.name@ + "` is not provided here"@,
{
    let mut text = "but argument `".to_owned();
    text.append(argument.name.as_str());
    text.append("` is not provided here");
    text
}

/// Check if the arguments provided to two fields are the same, so the fields can be merged.
pub fn identical_arguments(field_a: &Field, field_b: &Field) -> (result: Result<
    (),
    ApolloDiagnostic,
>)
    requires
        !(argument_comparison(*field_a, *field_b) is Undetermined),
    ensures
        argument_comparison(*field_a, *field_b) == match result {
            Ok(()) => Comparison::Same,
            Err(diagnostic) => Comparison::Conflict(diagnostic@),
        },
{
    let args_a = &field_a.arguments;
    let args_b = &field_b.arguments;

    // The arguments of the second field need not come in the order of the first.
    let ghost differs = |argument: Argument| argument_differs(argument, args_b@);
    assert(args_a@.skip(0) =~= args_a@);
    let mut i: usize = 0;
    while i < args_a.len()
        invariant
            i <= args_a.len(),
            args_a == field_a.arguments,
            args_b == field_b.arguments,
            differs == |argument: Argument| argument_differs(argument, args_b@),
            first_different(args_a@, args_b@) == lookup::first_match(
                args_a@.skip(i as int),
                differs,
            ),
            !(argument_comparison(*field_a, *field_b) is Undetermined),
        decreases args_a.len() - i,
    {
        let arg = &args_a[i];
        proof {
            lookup::lemma_first_match_step(args_a@, differs, i as int);
        }
        let other_arg = match find_argument(args_b, arg.name.as_str()) {
            Some(other_arg) => other_arg,
            None => {
                return Err(
                    argument_conflict_diagnostic(
                        field_a,
                        field_b,
                        arg.location,
                        selected_with(field_a, arg),
                        field_b.location,
                        not_provided(arg),
                    ),
                );
            },
        };
        if !other_arg.value.same(&arg.value) {
            let mut text = "field `".to_owned();
            text.append(field_a.name.as_str());
            text.append("` provides one argument value here");
            return Err(
                argument_conflict_diagnostic(
                    field_a,
                    field_b,
                    arg.location,
                    text,
                    other_arg.location,
                    "but a different value here".to_owned(),
                ),
            );
        }
        i += 1;
    }

    // Nor may the second field give any argument that the first does not.
    let ghost missing = |argument: Argument|
        ast::argument_named(args_a@, argument.name@) is None;
    assert(args_b@.skip(0) =~= args_b@);
    let mut j: usize = 0;
    while j < args_b.len()
        invariant
            j <= args_b.len(),
            args_a == field_a.arguments,
            args_b == field_b.arguments,
            first_different(args_a@, args_b@) is None,
            missing == |argument: Argument| ast::argument_named(args_a@, argument.name@) is None,
            first_missing(args_b@, args_a@) == lookup::first_match(args_b@.skip(j as int), missing),
            !(argument_comparison(*field_a, *field_b) is Undetermined),
        decreases args_b.len() - j,
    {
        let arg = &args_b[j];
        proof {
            lookup::lemma_first_match_step(args_b@, missing, j as int);
        }
        if find_argument(args_a, arg.name.as_str()).is_none() {
            return Err(
                argument_conflict_diagnostic(
                    field_a,
                    field_b,
                    arg.location,
                    selected_with(field_b, arg),
                    field_a.location,
                    not_provided(arg),
                ),
            );
        }
        j += 1;
    }
    Ok(())
}

} // verus!
