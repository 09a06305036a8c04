//! Which fields a selection set selects, said without an order: those that stand in it, in its
//! inline fragments, and in the named fragments that it leads to.
use vstd::prelude::*;

use crate::ast::{FragmentDefinition, Selection};
use crate::names;
use crate::validation::fields;
use crate::validation::fields::{Expansion, SelectedField};

verus! {

/// Whether a selection on a type leads to a field through at most `depth` named fragments within
/// each other. A fragment with a type condition selects from that type; an inline fragment without
/// one selects from the type around it.
pub open spec fn leads_to(
    fragments: Map<Seq<char>, FragmentDefinition>,
    depth: nat,
    ty: Seq<char>,
    selection: Selection,
    found: SelectedField,
) -> bool
    decreases depth, selection,
{
    match selection {
        Selection::Field(field) => found.against == ty && found.field == field,
        Selection::InlineFragment(inline) => match inline.type_condition {
            Some(condition) => some_leads_to(
                fragments,
                depth,
                condition@,
                inline.selection_set@,
                found,
            ),
            None => some_leads_to(fragments, depth, ty, inline.selection_set@, found),
        },
        Selection::FragmentSpread(spread) => {
            &&& depth > 0
            &&& fragments.contains_key(spread.fragment_name@)
            &&& some_leads_to(
                fragments,
                (depth - 1) as nat,
                fragments[spread.fragment_name@].type_condition@,
                fragments[spread.fragment_name@].selection_set@,
                found,
            )
        },
    }
}

/// Whether one of the selections on a type leads to a field through at most `depth` named fragments
/// within each other.
pub open spec fn some_leads_to(
    fragments: Map<Seq<char>, FragmentDefinition>,
    depth: nat,
    ty: Seq<char>,
    selections: Seq<Selection>,
    found: SelectedField,
) -> bool
    decreases depth, selections,
{
    exists|i: int|
        0 <= i < selections.len() && leads_to(fragments, depth, ty, #[trigger] selections[i], found)
}

/// Whether the selections on a type lead to a field.
pub open spec fn reaches(
    fragments: Map<Seq<char>, FragmentDefinition>,
    ty: Seq<char>,
    selections: Seq<Selection>,
    found: SelectedField,
) -> bool {
    exists|depth: nat| #[trigger] some_leads_to(fragments, depth, ty, selections, found)
}

/// Every field that an expansion gives is one that its selections lead to.
proof fn lemma_expanded_is_led_to(
    fragments: Map<Seq<char>, FragmentDefinition>,
    seen: Set<Seq<char>>,
    work: Seq<(Seq<char>, Selection)>,
    k: int,
) -> (at: (int, nat))
    requires
        fragments.dom().finite(),
        0 <= k < fields::expand(fragments, seen, work).fields.len(),
    ensures
        0 <= at.0 < work.len(),
        leads_to(
            fragments,
            at.1,
            work[at.0].0,
            work[at.0].1,
            fields::expand(fragments, seen, work).fields[k],
        ),
    decreases names::unseen(fragments, seen), fields::work_size(work),
{
    let found = fields::expand(fragments, seen, work).fields[k];
    if work.len() == 0 {
        assert(fields::expand(fragments, seen, work).fields.len() == 0);
        (0, 0)
    } else {
        let (ty, selection) = work[0];
        let rest = work.skip(1);
        match selection {
            Selection::Field(field) => if k == 0 {
                (0, 0)
            } else {
                let at = lemma_expanded_is_led_to(fragments, seen, rest, k - 1);
                assert(work[at.0 + 1] == rest[at.0]);
                (at.0 + 1, at.1)
            },
            Selection::InlineFragment(inline) => {
                let inner = match inline.type_condition {
                    Some(condition) => condition@,
                    None => ty,
                };
                let opened = fields::against(inner, inline.selection_set@);
                fields::lemma_work_size(inner, inline.selection_set@, rest);
                let at = lemma_expanded_is_led_to(fragments, seen, opened + rest, k);
                if at.0 < opened.len() {
                    assert((opened + rest)[at.0] == (inner, inline.selection_set@[at.0]));
                    assert(some_leads_to(fragments, at.1, inner, inline.selection_set@, found));
                    (0, at.1)
                } else {
                    assert((opened + rest)[at.0] == work[at.0 - opened.len() + 1]);
                    (at.0 - opened.len() + 1, at.1)
                }
            },
            Selection::FragmentSpread(spread) => {
                let name = spread.fragment_name@;
                names::lemma_unseen_insert(fragments, seen, name);
                if seen.contains(name) {
                    let at = lemma_expanded_is_led_to(fragments, seen, rest, k);
                    assert(work[at.0 + 1] == rest[at.0]);
                    (at.0 + 1, at.1)
                } else if !fragments.contains_key(name) {
                    let at = lemma_expanded_is_led_to(fragments, seen.insert(name), rest, k);
                    assert(work[at.0 + 1] == rest[at.0]);
                    (at.0 + 1, at.1)
                } else {
                    let fragment = fragments[name];
                    let opened = fields::against(
                        fragment.type_condition@,
                        fragment.selection_set@,
                    );
                    let at = lemma_expanded_is_led_to(
                        fragments,
                        seen.insert(name),
                        opened + rest,
                        k,
                    );
                    if at.0 < opened.len() {
                        assert((opened + rest)[at.0] == (
                            fragment.type_condition@,
                            fragment.selection_set@[at.0],
                        ));
                        assert(some_leads_to(
                            fragments,
                            at.1,
                            fragment.type_condition@,
                            fragment.selection_set@,
                            found,
                        ));
                        (0, at.1 + 1)
                    } else {
                        assert((opened + rest)[at.0] == work[at.0 - opened.len() + 1]);
                        (at.0 - opened.len() + 1, at.1)
                    }
                }
            },
        }
    }
}

/// Whether an expansion holds the fields of a selection, and has met the fragments it spreads.
spec fn covers(result: Expansion, ty: Seq<char>, selection: Selection) -> bool
    decreases selection,
{
    match selection {
        Selection::Field(field) => result.fields.contains(SelectedField { against: ty, field }),
        Selection::InlineFragment(inline) => covers_all(
            result,
            match inline.type_condition {
                Some(condition) => condition@,
                None => ty,
            },
            inline.selection_set@,
        ),
        Selection::FragmentSpread(spread) => result.seen.contains(spread.fragment_name@),
    }
}

spec fn covers_all(result: Expansion, ty: Seq<char>, selections: Seq<Selection>) -> bool
    decreases selections,
{
    forall|i: int| 0 <= i < selections.len() ==> covers(result, ty, #[trigger] selections[i])
}

spec fn grows_to(less: Expansion, more: Expansion) -> bool {
    &&& forall|field: SelectedField| #[trigger]
        less.fields.contains(field) ==> more.fields.contains(field)
    &&& less.seen.subset_of(more.seen)
}

proof fn lemma_covers_more(less: Expansion, more: Expansion, ty: Seq<char>, selection: Selection)
    requires
        grows_to(less, more),
        covers(less, ty, selection),
    ensures
        covers(more, ty, selection),
    decreases selection,
{
    if let Selection::InlineFragment(inline) = selection {
        let inner = match inline.type_condition {
            Some(condition) => condition@,
            None => ty,
        };
        assert forall|i: int| 0 <= i < inline.selection_set@.len() implies covers(
            more,
            inner,
            #[trigger] inline.selection_set@[i],
        ) by {
            lemma_covers_more(less, more, inner, inline.selection_set@[i]);
        }
    }
}

proof fn lemma_covers_all_more(
    less: Expansion,
    more: Expansion,
    ty: Seq<char>,
    selections: Seq<Selection>,
)
    requires
        grows_to(less, more),
        covers_all(less, ty, selections),
    ensures
        covers_all(more, ty, selections),
{
    assert forall|i: int| 0 <= i < selections.len() implies covers(
        more,
        ty,
        #[trigger] selections[i],
    ) by {
        lemma_covers_more(less, more, ty, selections[i]);
    }
}

/// Whether an expansion covers all of its selections, and the fragments that it met.
spec fn covers_work(
    fragments: Map<Seq<char>, FragmentDefinition>,
    seen: Set<Seq<char>>,
    work: Seq<(Seq<char>, Selection)>,
    result: Expansion,
) -> bool {
    &&& forall|i: int|
        0 <= i < work.len() ==> covers(result, (#[trigger] work[i]).0, work[i].1)
    &&& forall|name: Seq<char>| #[trigger]
        result.seen.contains(name) && !seen.contains(name) && fragments.contains_key(name)
            ==> covers_all(
            result,
            fragments[name].type_condition@,
            fragments[name].selection_set@,
        )
}

proof fn lemma_expand_covers(
    fragments: Map<Seq<char>, FragmentDefinition>,
    seen: Set<Seq<char>>,
    work: Seq<(Seq<char>, Selection)>,
)
    requires
        fragments.dom().finite(),
    ensures
        covers_work(fragments, seen, work, fields::expand(fragments, seen, work)),
    decreases names::unseen(fragments, seen), fields::work_size(work),
{
    let result = fields::expand(fragments, seen, work);
    if work.len() > 0 {
        let (ty, selection) = work[0];
        let rest = work.skip(1);
        match selection {
            Selection::Field(field) => {
                lemma_expand_covers(fragments, seen, rest);
                let after = fields::expand(fragments, seen, rest);
                let head = SelectedField { against: ty, field };
                assert(result.fields[0] == head);
                assert forall|other: SelectedField| #[trigger]
                    after.fields.contains(other) implies result.fields.contains(other) by {
                    let j = choose|j: int| 0 <= j < after.fields.len() && after.fields[j] == other;
                    assert(result.fields[j + 1] == other);
                }
                assert(grows_to(after, result));
                assert forall|i: int| 0 <= i < work.len() implies covers(
                    result,
                    (#[trigger] work[i]).0,
                    work[i].1,
                ) by {
                    if i > 0 {
                        assert(rest[i - 1] == work[i]);
                        lemma_covers_more(after, result, work[i].0, work[i].1);
                    }
                }
                assert forall|name: Seq<char>| #[trigger]
                    result.seen.contains(name) && !seen.contains(name) && fragments.contains_key(
                        name,
                    ) implies covers_all(
                    result,
                    fragments[name].type_condition@,
                    fragments[name].selection_set@,
                ) by {
                    assert(after.seen.contains(name));
                    lemma_covers_all_more(
                        after,
                        result,
                        fragments[name].type_condition@,
                        fragments[name].selection_set@,
                    );
                }
            },
            Selection::InlineFragment(inline) => {
                let inner = match inline.type_condition {
                    Some(condition) => condition@,
                    None => ty,
                };
                let opened = fields::against(inner, inline.selection_set@);
                fields::lemma_work_size(inner, inline.selection_set@, rest);
                lemma_expand_covers(fragments, seen, opened + rest);
                lemma_opened_is_covered(result, inner, inline.selection_set@, rest);
                lemma_rest_is_covered(result, opened, rest);
                assert forall|i: int| 0 <= i < work.len() implies covers(
                    result,
                    (#[trigger] work[i]).0,
                    work[i].1,
                ) by {
                    if i > 0 {
                        assert(rest[i - 1] == work[i]);
                    }
                }
            },
            Selection::FragmentSpread(spread) => {
                let name = spread.fragment_name@;
                names::lemma_unseen_insert(fragments, seen, name);
                if seen.contains(name) {
                    lemma_expand_covers(fragments, seen, rest);
                    fields::lemma_expand_concat(fragments, seen, rest, Seq::empty());
                } else if !fragments.contains_key(name) {
                    lemma_expand_covers(fragments, seen.insert(name), rest);
                    fields::lemma_expand_concat(
                        fragments,
                        seen.insert(name),
                        rest,
                        Seq::empty(),
                    );
                } else {
                    let fragment = fragments[name];
                    let opened = fields::against(
                        fragment.type_condition@,
                        fragment.selection_set@,
                    );
                    lemma_expand_covers(fragments, seen.insert(name), opened + rest);
                    fields::lemma_expand_concat(
                        fragments,
                        seen.insert(name),
                        opened + rest,
                        Seq::empty(),
                    );
                    lemma_opened_is_covered(
                        result,
                        fragment.type_condition@,
                        fragment.selection_set@,
                        rest,
                    );
                    lemma_rest_is_covered(result, opened, rest);
                }
                assert(result.seen.contains(name));
                assert forall|i: int| 0 <= i < work.len() implies covers(
                    result,
                    (#[trigger] work[i]).0,
                    work[i].1,
                ) by {
                    if i > 0 {
                        assert(rest[i - 1] == work[i]);
                    }
                }
            },
        }
    }
}

proof fn lemma_opened_is_covered(
    result: Expansion,
    ty: Seq<char>,
    selections: Seq<Selection>,
    rest: Seq<(Seq<char>, Selection)>,
)
    requires
        ({
            let work = fields::against(ty, selections) + rest;
            forall|i: int|
                0 <= i < work.len() ==> covers(result, (#[trigger] work[i]).0, work[i].1)
        }),
    ensures
        covers_all(result, ty, selections),
{
    let work = fields::against(ty, selections) + rest;
    assert forall|i: int| 0 <= i < selections.len() implies covers(
        result,
        ty,
        #[trigger] selections[i],
    ) by {
        assert(work[i] == (ty, selections[i]));
    }
}

proof fn lemma_rest_is_covered(
    result: Expansion,
    opened: Seq<(Seq<char>, Selection)>,
    rest: Seq<(Seq<char>, Selection)>,
)
    requires
        ({
            let work = opened + rest;
            forall|i: int|
                0 <= i < work.len() ==> covers(result, (#[trigger] work[i]).0, work[i].1)
        }),
    ensures
        forall|i: int| 0 <= i < rest.len() ==> covers(result, (#[trigger] rest[i]).0, rest[i].1),
{
    let work = opened + rest;
    assert forall|i: int| 0 <= i < rest.len() implies covers(
        result,
        (#[trigger] rest[i]).0,
        rest[i].1,
    ) by {
        assert(work[opened.len() + i] == rest[i]);
    }
}

/// What covers its fragments holds every field that what it covers leads to.
proof fn lemma_led_to_is_covered(
    fragments: Map<Seq<char>, FragmentDefinition>,
    work: Seq<(Seq<char>, Selection)>,
    result: Expansion,
    depth: nat,
    ty: Seq<char>,
    selection: Selection,
    found: SelectedField,
)
    requires
        covers_work(fragments, Set::empty(), work, result),
        covers(result, ty, selection),
        leads_to(fragments, depth, ty, selection, found),
    ensures
        result.fields.contains(found),
    decreases depth, selection,
{
    match selection {
        Selection::Field(field) => {
            assert(found == SelectedField { against: ty, field });
        },
        Selection::InlineFragment(inline) => {
            let inner = match inline.type_condition {
                Some(condition) => condition@,
                None => ty,
            };
            let selections = inline.selection_set@;
            assert(some_leads_to(fragments, depth, inner, selections, found));
            let i = choose|i: int|
                0 <= i < selections.len() && leads_to(
                    fragments,
                    depth,
                    inner,
                    #[trigger] selections[i],
                    found,
                );
            lemma_led_to_is_covered(
                fragments,
                work,
                result,
                depth,
                inner,
                selections[i],
                found,
            );
        },
        Selection::FragmentSpread(spread) => {
            let name = spread.fragment_name@;
            let less = (depth - 1) as nat;
            let inner = fragments[name].type_condition@;
            let selections = fragments[name].selection_set@;
            assert(result.seen.contains(name));
            assert(covers_all(result, inner, selections));
            let i = choose|i: int|
                0 <= i < selections.len() && leads_to(
                    fragments,
                    less,
                    inner,
                    #[trigger] selections[i],
                    found,
                );
            lemma_led_to_is_covered(fragments, work, result, less, inner, selections[i], found);
        },
    }
}

/// A selection set selects exactly the fields that it leads to: none is left out, and none is added.
pub proof fn lemma_fields_are_reached(
    fragments: Map<Seq<char>, FragmentDefinition>,
    ty: Seq<char>,
    selections: Seq<Selection>,
    found: SelectedField,
)
    requires
        fragments.dom().finite(),
    ensures
        fields::fields_of(fragments, ty, selections).contains(found) <==> reaches(
            fragments,
            ty,
            selections,
            found,
        ),
{
    let work = fields::against(ty, selections);
    let none = Seq::<(Seq<char>, Selection)>::empty();
    assert(work + none =~= work);
    lemma_expanded_are_reached(fragments, ty, selections, ty, Seq::empty(), found);
    assert(fields::against(ty, Seq::empty()) =~= none);
    if reaches(fragments, ty, Seq::empty(), found) {
        let depth = choose|depth: nat| #[trigger]
            some_leads_to(fragments, depth, ty, Seq::empty(), found);
        assert(some_leads_to(fragments, depth, ty, Seq::empty(), found));
    }
}

/// Two selection sets that are expanded together give exactly the fields that one of them leads to.
pub proof fn lemma_expanded_are_reached(
    fragments: Map<Seq<char>, FragmentDefinition>,
    ty_a: Seq<char>,
    first: Seq<Selection>,
    ty_b: Seq<char>,
    second: Seq<Selection>,
    found: SelectedField,
)
    requires
        fragments.dom().finite(),
    ensures
        fields::expand(
            fragments,
            Set::empty(),
            fields::against(ty_a, first) + fields::against(ty_b, second),
        ).fields.contains(found) <==> reaches(fragments, ty_a, first, found) || reaches(
            fragments,
            ty_b,
            second,
            found,
        ),
{
    let work = fields::against(ty_a, first) + fields::against(ty_b, second);
    let result = fields::expand(fragments, Set::empty(), work);
    if result.fields.contains(found) {
        let k = choose|k: int| 0 <= k < result.fields.len() && result.fields[k] == found;
        let (i, depth) = lemma_expanded_is_led_to(fragments, Set::empty(), work, k);
        if i < first.len() {
            assert(work[i] == (ty_a, first[i]));
            assert(some_leads_to(fragments, depth, ty_a, first, found));
        } else {
            assert(work[i] == (ty_b, second[i - first.len()]));
            assert(some_leads_to(fragments, depth, ty_b, second, found));
        }
    }
    lemma_expand_covers(fragments, Set::empty(), work);
    if reaches(fragments, ty_a, first, found) {
        let depth = choose|depth: nat| #[trigger]
            some_leads_to(fragments, depth, ty_a, first, found);
        let i = choose|i: int|
            0 <= i < first.len() && leads_to(fragments, depth, ty_a, #[trigger] first[i], found);
        assert(work[i] == (ty_a, first[i]));
        assert(covers(result, work[i].0, work[i].1));
        lemma_led_to_is_covered(fragments, work, result, depth, ty_a, first[i], found);
    }
    if reaches(fragments, ty_b, second, found) {
        let depth = choose|depth: nat| #[trigger]
            some_leads_to(fragments, depth, ty_b, second, found);
        let i = choose|i: int|
            0 <= i < second.len() && leads_to(fragments, depth, ty_b, #[trigger] second[i], found);
        assert(work[first.len() + i] == (ty_b, second[i]));
        assert(covers(result, work[first.len() + i].0, work[first.len() + i].1));
        lemma_led_to_is_covered(fragments, work, result, depth, ty_b, second[i], found);
    }
}

} // verus!
