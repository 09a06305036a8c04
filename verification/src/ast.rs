//! The parts of a GraphQL document that selection handling reads.
use vstd::prelude::*;

use crate::lookup;
use crate::names::same_text;

verus! {

/// A GraphQL name.
pub type Name = String;

/// The name of a type.
pub type NamedType = String;

/// Identifies a source file.
#[derive(Clone, Copy, Debug, PartialEq, Eq, Structural)]
pub struct FileId {
    pub id: u64,
}

/// Where in which source file a part of a document was written.
#[derive(Clone, Copy, Debug, PartialEq, Eq, Structural)]
pub struct NodeLocation {
    pub file_id: FileId,
    pub offset: usize,
    pub length: usize,
}

/// A reference to a type: a name in any number of lists, each of which may be non-null.
#[derive(Debug)]
pub enum Type {
    Named(NamedType),
    NonNullNamed(NamedType),
    List(Box<Type>),
    NonNullList(Box<Type>),
}

/// How the type is written in a document.
pub open spec fn type_text(ty: Type) -> Seq<char>
    decreases ty,
{
    match ty {
        Type::Named(name) => name@,
        Type::NonNullNamed(name) => name@ + "!"@,
        Type::List(item) => "["@ + type_text(*item) + "]"@,
        Type::NonNullList(item) => "["@ + type_text(*item) + "]!"@,
    }
}

/// The name inside all lists.
pub open spec fn inner_name(ty: Type) -> NamedType
    decreases ty,
{
    match ty {
        Type::Named(name) => name,
        Type::NonNullNamed(name) => name,
        Type::List(item) => inner_name(*item),
        Type::NonNullList(item) => inner_name(*item),
    }
}

/// Whether two types are the same but for the names inside: the same lists, and non-null at the
/// same places.
pub open spec fn same_wrapping(a: Type, b: Type) -> bool
    decreases a,
{
    match (a, b) {
        (Type::Named(_), Type::Named(_)) => true,
        (Type::NonNullNamed(_), Type::NonNullNamed(_)) => true,
        (Type::List(x), Type::List(y)) => same_wrapping(*x, *y),
        (Type::NonNullList(x), Type::NonNullList(y)) => same_wrapping(*x, *y),
        _ => false,
    }
}

/// A type has the same lists as itself, and is non-null at the same places.
pub proof fn lemma_same_wrapping(ty: Type)
    ensures
        same_wrapping(ty, ty),
    decreases ty,
{
    match ty {
        Type::List(item) => lemma_same_wrapping(*item),
        Type::NonNullList(item) => lemma_same_wrapping(*item),
        _ => {},
    }
}

/// It does not matter which of two types is compared with the other.
pub proof fn lemma_same_wrapping_symmetric(a: Type, b: Type)
    ensures
        same_wrapping(a, b) == same_wrapping(b, a),
    decreases a,
{
    match (a, b) {
        (Type::List(x), Type::List(y)) => lemma_same_wrapping_symmetric(*x, *y),
        (Type::NonNullList(x), Type::NonNullList(y)) => lemma_same_wrapping_symmetric(*x, *y),
        _ => {},
    }
}

/// The type with another name inside all lists.
pub open spec fn with_inner(ty: Type, name: NamedType) -> Type
    decreases ty,
{
    match ty {
        Type::Named(_) => Type::Named(name),
        Type::NonNullNamed(_) => Type::NonNullNamed(name),
        Type::List(item) => Type::List(Box::new(with_inner(*item, name))),
        Type::NonNullList(item) => Type::NonNullList(Box::new(with_inner(*item, name))),
    }
}

/// The name inside all lists is what is put there, and a type is what it is with its own name
/// inside.
pub proof fn lemma_with_inner(ty: Type, name: NamedType)
    ensures
        inner_name(with_inner(ty, name)) == name,
        with_inner(ty, inner_name(ty)) == ty,
    decreases ty,
{
    match ty {
        Type::List(item) => lemma_with_inner(*item, name),
        Type::NonNullList(item) => lemma_with_inner(*item, name),
        _ => {},
    }
}

/// Two types are wrapped in the same way exactly where they are equal once the same name stands
/// inside them.
pub proof fn lemma_same_but_for_name(a: Type, b: Type, name: NamedType)
    ensures
        same_wrapping(a, b) <==> with_inner(a, name) == with_inner(b, name),
    decreases a,
{
    match (a, b) {
        (Type::List(x), Type::List(y)) => lemma_same_but_for_name(*x, *y, name),
        (Type::NonNullList(x), Type::NonNullList(y)) => lemma_same_but_for_name(*x, *y, name),
        _ => {},
    }
}

/// Types that are wrapped in the same way are of the same kind at every level: the outermost level,
/// and the levels of their items.
pub proof fn lemma_same_levels(a: Type, b: Type)
    requires
        same_wrapping(a, b),
    ensures
        a is Named <==> b is Named,
        a is NonNullNamed <==> b is NonNullNamed,
        a is List <==> b is List,
        a is NonNullList <==> b is NonNullList,
        a.is_named() == b.is_named(),
        a.is_non_null() == b.is_non_null(),
        a is List ==> same_wrapping(*a->List_0, *b->List_0),
        a is NonNullList ==> same_wrapping(*a->NonNullList_0, *b->NonNullList_0),
{
}

/// A type is non-null or not, and a list or not, in each of the four ways.
pub proof fn lemma_kinds_of_types(ty: Type)
    ensures
        ty is Named <==> ty.is_named() && !ty.is_non_null(),
        ty is NonNullNamed <==> ty.is_named() && ty.is_non_null(),
        ty is List <==> !ty.is_named() && !ty.is_non_null(),
        ty is NonNullList <==> !ty.is_named() && ty.is_non_null(),
{
}

/// Whether a name holds none of the characters that wrap types.
pub open spec fn is_plain(name: Seq<char>) -> bool {
    forall|i: int|
        0 <= i < name.len() ==> #[trigger] name[i] != '[' && name[i] != ']' && name[i] != '!'
}

/// Types that are written in the same way are the same: wrapped in the same way, around the same
/// name.
pub proof fn lemma_text_tells_types_apart(a: Type, b: Type)
    requires
        is_plain(inner_name(a)@),
        is_plain(inner_name(b)@),
        type_text(a) == type_text(b),
    ensures
        same_wrapping(a, b),
        inner_name(a)@ == inner_name(b)@,
    decreases a,
{
    reveal_strlit("!");
    reveal_strlit("[");
    reveal_strlit("]");
    reveal_strlit("]!");
    let text = type_text(a);
    lemma_text_ends(a);
    lemma_text_ends(b);
    match (a, b) {
        (Type::NonNullNamed(x), Type::NonNullNamed(y)) => {
            assert(x@ =~= text.take(text.len() - 1));
            assert(y@ =~= text.take(text.len() - 1));
        },
        (Type::List(x), Type::List(y)) => {
            assert(type_text(*x) =~= text.subrange(1, text.len() - 1));
            assert(type_text(*y) =~= text.subrange(1, text.len() - 1));
            lemma_text_tells_types_apart(*x, *y);
        },
        (Type::NonNullList(x), Type::NonNullList(y)) => {
            assert(type_text(*x) =~= text.subrange(1, text.len() - 2));
            assert(type_text(*y) =~= text.subrange(1, text.len() - 2));
            lemma_text_tells_types_apart(*x, *y);
        },
        _ => {},
    }
}

/// What a type is written with at its ends tells its outermost level.
proof fn lemma_text_ends(ty: Type)
    requires
        is_plain(inner_name(ty)@),
    ensures
        !ty.is_named() <==> type_text(ty).len() > 0 && type_text(ty)[0] == '[',
        ty.is_non_null() <==> type_text(ty).len() > 0 && type_text(ty).last() == '!',
{
    reveal_strlit("!");
    reveal_strlit("[");
    reveal_strlit("]");
    reveal_strlit("]!");
    match ty {
        Type::Named(name) => {
            if name@.len() > 0 {
                assert(name@[0] != '[');
                assert(name@[name@.len() - 1] != '!');
            }
        },
        Type::NonNullNamed(name) => {
            let text = name@ + "!"@;
            assert(text.last() == '!');
            if name@.len() > 0 {
                assert(text[0] == name@[0]);
                assert(name@[0] != '[');
            } else {
                assert(text[0] == '!');
            }
        },
        Type::List(item) => {
            let text = "["@ + type_text(*item) + "]"@;
            assert(text[0] == '[');
            assert(text.last() == ']');
        },
        Type::NonNullList(item) => {
            let text = "["@ + type_text(*item) + "]!"@;
            assert(text[0] == '[');
            assert(text.last() == '!');
        },
    }
}

impl Type {
    pub open spec fn spec_is_named(&self) -> bool {
        self is Named || self is NonNullNamed
    }

    /// Whether the type is not a list.
    #[verifier::when_used_as_spec(spec_is_named)]
    pub fn is_named(&self) -> (result: bool)
        ensures
            result == self.spec_is_named(),
    {
        matches!(self, Type::Named(_) | Type::NonNullNamed(_))
    }

    pub open spec fn spec_is_non_null(&self) -> bool {
        self is NonNullNamed || self is NonNullList
    }

    /// Whether null is excluded at the outermost level.
    #[verifier::when_used_as_spec(spec_is_non_null)]
    pub fn is_non_null(&self) -> (result: bool)
        ensures
            result == self.spec_is_non_null(),
    {
        matches!(self, Type::NonNullNamed(_) | Type::NonNullList(_))
    }

    /// The name inside all lists.
    pub fn inner_named_type(&self) -> (result: &NamedType)
        ensures
            *result == inner_name(*self),
        decreases self,
    {
        match self {
            Type::Named(name) => name,
            Type::NonNullNamed(name) => name,
            Type::List(item) => item.inner_named_type(),
            Type::NonNullList(item) => item.inner_named_type(),
        }
    }

    /// The type as it is written in a document.
    pub fn text(&self) -> (result: String)
        ensures
            result@ == type_text(*self),
        decreases self,
    {
        match self {
            Type::Named(name) => name.clone(),
            Type::NonNullNamed(name) => {
                let mut text = name.clone();
                text.append("!");
                text
            },
            Type::List(item) => {
                let mut text = "[".to_owned();
                text.append(item.text().as_str());
                text.append("]");
                text
            },
            Type::NonNullList(item) => {
                let mut text = "[".to_owned();
                text.append(item.text().as_str());
                text.append("]!");
                text
            },
        }
    }
}

/// A value as it is written in a document. Numbers are kept as they were written.
#[derive(Debug)]
pub enum Value {
    Null,
    Enum(Name),
    Variable(Name),
    String(String),
    Float(String),
    Int(String),
    Boolean(bool),
    List(Vec<Value>),
    Object(Vec<(Name, Value)>),
}

/// What a [`Value`] denotes.
pub enum ValueView {
    Null,
    Enum(Seq<char>),
    Variable(Seq<char>),
    String(Seq<char>),
    Float(Seq<char>),
    Int(Seq<char>),
    Boolean(bool),
    List(Seq<ValueView>),
    Object(Seq<(Seq<char>, ValueView)>),
}

/// What a value denotes.
pub open spec fn value_view(value: Value) -> ValueView
    decreases value,
{
    match value {
        Value::Null => ValueView::Null,
        Value::Enum(name) => ValueView::Enum(name@),
        Value::Variable(name) => ValueView::Variable(name@),
        Value::String(text) => ValueView::String(text@),
        Value::Float(text) => ValueView::Float(text@),
        Value::Int(text) => ValueView::Int(text@),
        Value::Boolean(b) => ValueView::Boolean(b),
        Value::List(items) => ValueView::List(values_view(items@)),
        Value::Object(entries) => ValueView::Object(entries_view(entries@)),
    }
}

/// What each of the values denotes.
pub open spec fn values_view(items: Seq<Value>) -> Seq<ValueView>
    decreases items,
{
    if items.len() == 0 {
        Seq::empty()
    } else {
        values_view(items.drop_last()).push(value_view(items.last()))
    }
}

/// What the entries of an object denote, in their order.
pub open spec fn entries_view(entries: Seq<(Name, Value)>) -> Seq<(Seq<char>, ValueView)>
    decreases entries,
{
    if entries.len() == 0 {
        Seq::empty()
    } else {
        entries_view(entries.drop_last()).push((entries.last().0@, value_view(entries.last().1)))
    }
}

impl View for Value {
    type V = ValueView;

    open spec fn view(&self) -> ValueView {
        value_view(*self)
    }
}

proof fn lemma_values_view(items: Seq<Value>)
    ensures
        values_view(items).len() == items.len(),
        forall|i: int| 0 <= i < items.len() ==> #[trigger] values_view(items)[i] == value_view(items[i]),
    decreases items.len(),
{
    if items.len() > 0 {
        lemma_values_view(items.drop_last());
    }
}

proof fn lemma_entries_view(entries: Seq<(Name, Value)>)
    ensures
        entries_view(entries).len() == entries.len(),
        forall|i: int|
            0 <= i < entries.len() ==> #[trigger] entries_view(entries)[i] == (
                entries[i].0@,
                value_view(entries[i].1),
            ),
    decreases entries.len(),
{
    if entries.len() > 0 {
        lemma_entries_view(entries.drop_last());
    }
}

/// Values that denote the same are of the same kind, and denote the same part by part.
pub proof fn lemma_same_value(a: Value, b: Value)
    requires
        a@ == b@,
    ensures
        a is Null <==> b is Null,
        a is Enum <==> b is Enum && a->Enum_0@ == b->Enum_0@,
        a is Variable <==> b is Variable && a->Variable_0@ == b->Variable_0@,
        a is String <==> b is String && a->String_0@ == b->String_0@,
        a is Float <==> b is Float && a->Float_0@ == b->Float_0@,
        a is Int <==> b is Int && a->Int_0@ == b->Int_0@,
        a is Boolean <==> b is Boolean && a->Boolean_0 == b->Boolean_0,
        a is List <==> b is List,
        a is List ==> {
            &&& a->List_0@.len() == b->List_0@.len()
            &&& forall|i: int|
                0 <= i < a->List_0@.len() ==> (#[trigger] a->List_0@[i])@ == b->List_0@[i]@
        },
        a is Object <==> b is Object,
        a is Object ==> {
            &&& a->Object_0@.len() == b->Object_0@.len()
            &&& forall|i: int|
                0 <= i < a->Object_0@.len() ==> (#[trigger] a->Object_0@[i]).0@
                    == b->Object_0@[i].0@ && a->Object_0@[i].1@ == b->Object_0@[i].1@
        },
{
    match (a, b) {
        (Value::List(x), Value::List(y)) => {
            lemma_values_view(x@);
            lemma_values_view(y@);
            assert forall|i: int| 0 <= i < x@.len() implies (#[trigger] x@[i])@ == y@[i]@ by {
                assert(values_view(x@)[i] == values_view(y@)[i]);
            }
        },
        (Value::Object(x), Value::Object(y)) => {
            lemma_entries_view(x@);
            lemma_entries_view(y@);
            assert forall|i: int| 0 <= i < x@.len() implies (#[trigger] x@[i]).0@ == y@[i].0@
                && x@[i].1@ == y@[i].1@ by {
                assert(entries_view(x@)[i] == entries_view(y@)[i]);
            }
        },
        _ => {},
    }
}

/// Values that are of the same kind and denote the same part by part denote the same.
pub proof fn lemma_value_by_parts(a: Value, b: Value)
    requires
        match (a, b) {
            (Value::Null, Value::Null) => true,
            (Value::Enum(x), Value::Enum(y)) => x@ == y@,
            (Value::Variable(x), Value::Variable(y)) => x@ == y@,
            (Value::String(x), Value::String(y)) => x@ == y@,
            (Value::Float(x), Value::Float(y)) => x@ == y@,
            (Value::Int(x), Value::Int(y)) => x@ == y@,
            (Value::Boolean(x), Value::Boolean(y)) => x == y,
            (Value::List(x), Value::List(y)) => x@.len() == y@.len() && forall|i: int|
                0 <= i < x@.len() ==> (#[trigger] x@[i])@ == y@[i]@,
            (Value::Object(x), Value::Object(y)) => x@.len() == y@.len() && forall|i: int|
                0 <= i < x@.len() ==> (#[trigger] x@[i]).0@ == y@[i].0@ && x@[i].1@ == y@[i].1@,
            _ => false,
        },
    ensures
        a@ == b@,
{
    match (a, b) {
        (Value::List(x), Value::List(y)) => {
            lemma_values_view(x@);
            lemma_values_view(y@);
            assert(values_view(x@) =~= values_view(y@));
        },
        (Value::Object(x), Value::Object(y)) => {
            lemma_entries_view(x@);
            lemma_entries_view(y@);
            assert(entries_view(x@) =~= entries_view(y@));
        },
        _ => {},
    }
}

impl Value {
    /// Whether two values denote the same.
    pub fn same(&self, other: &Value) -> (result: bool)
        ensures
            result == (self@ == other@),
        decreases self,
    {
        match (self, other) {
            (Value::Null, Value::Null) => true,
            (Value::Enum(a), Value::Enum(b)) => *a == *b,
            (Value::Variable(a), Value::Variable(b)) => *a == *b,
            (Value::String(a), Value::String(b)) => *a == *b,
            (Value::Float(a), Value::Float(b)) => *a == *b,
            (Value::Int(a), Value::Int(b)) => *a == *b,
            (Value::Boolean(a), Value::Boolean(b)) => *a == *b,
            (Value::List(a), Value::List(b)) => same_items(a, b),
            (Value::Object(a), Value::Object(b)) => same_entries(a, b),
            _ => false,
        }
    }
}

fn same_items(a: &Vec<Value>, b: &Vec<Value>) -> (result: bool)
    ensures
        result == (values_view(a@) == values_view(b@)),
    decreases a,
{
    proof {
        lemma_values_view(a@);
        lemma_values_view(b@);
    }
    if a.len() != b.len() {
        return false;
    }
    let mut i: usize = 0;
    while i < a.len()
        invariant
            i <= a.len(),
            a.len() == b.len(),
            forall|j: int| 0 <= j < i ==> value_view(#[trigger] a@[j]) == value_view(b@[j]),
        decreases a.len() - i,
    {
        assert(decreases_to!(*a => a[i as int]));
        if !a[i].same(&b[i]) {
            proof {
                lemma_values_view(a@);
                lemma_values_view(b@);
            }
            assert(values_view(a@)[i as int] != values_view(b@)[i as int]);
            return false;
        }
        i += 1;
    }
    assert(values_view(a@) =~= values_view(b@));
    true
}

fn same_entries(a: &Vec<(Name, Value)>, b: &Vec<(Name, Value)>) -> (result: bool)
    ensures
        result == (entries_view(a@) == entries_view(b@)),
    decreases a,
{
    proof {
        lemma_entries_view(a@);
        lemma_entries_view(b@);
    }
    if a.len() != b.len() {
        return false;
    }
    let mut i: usize = 0;
    while i < a.len()
        invariant
            i <= a.len(),
            a.len() == b.len(),
            forall|j: int|
                0 <= j < i ==> (#[trigger] a@[j]).0@ == b@[j].0@ && value_view(a@[j].1)
                    == value_view(b@[j].1),
        decreases a.len() - i,
    {
        assert(decreases_to!(*a => a[i as int]));
        let same_entry = a[i].0 == b[i].0 && a[i].1.same(&b[i].1);
        if !same_entry {
            proof {
                lemma_entries_view(a@);
                lemma_entries_view(b@);
            }
            assert(entries_view(a@)[i as int] != entries_view(b@)[i as int]);
            return false;
        }
        i += 1;
    }
    assert(entries_view(a@) =~= entries_view(b@));
    true
}

/// An argument given to a field or a directive.
#[derive(Debug)]
pub struct Argument {
    pub name: Name,
    pub value: Value,
    pub location: Option<NodeLocation>,
}

/// Whether an argument has the given name.
pub open spec fn argument_has_name(name: Seq<char>) -> spec_fn(Argument) -> bool {
    |argument: Argument| argument.name@ == name
}

/// The first of `arguments` with the given name.
pub open spec fn argument_named(arguments: Seq<Argument>, name: Seq<char>) -> Option<Argument> {
    lookup::first_match(arguments, argument_has_name(name))
}

/// An argument is found by a name exactly where it has that name and none before it has. None is found
/// exactly where none has it.
pub proof fn lemma_argument_named(arguments: Seq<Argument>, name: Seq<char>)
    ensures
        argument_named(arguments, name) is None <==> forall|i: int|
            0 <= i < arguments.len() ==> (#[trigger] arguments[i]).name@ != name,
        forall|i: int|
            0 <= i < arguments.len() && (#[trigger] arguments[i]).name@ == name && (forall|j: int|
                0 <= j < i ==> (#[trigger] arguments[j]).name@ != name) ==> argument_named(
                arguments,
                name,
            ) == Some(arguments[i]),
{
    let p = argument_has_name(name);
    lookup::lemma_first_match(arguments, p);
    assert forall|i: int|
        0 <= i < arguments.len() && (#[trigger] arguments[i]).name@ == name && (forall|j: int|
            0 <= j < i ==> (#[trigger] arguments[j]).name@ != name) implies argument_named(
        arguments,
        name,
    ) == Some(arguments[i]) by {
        lookup::lemma_is_first_match(arguments, p, i);
    }
    if argument_named(arguments, name) is None {
        assert forall|i: int| 0 <= i < arguments.len() implies (#[trigger] arguments[i]).name@ != name by {
            assert(!p(arguments[i]));
        }
    } else {
        let i = lookup::lemma_first_match_at(arguments, p);
        assert(arguments[i].name@ == name);
    }
}

/// The first of `arguments` with the given name.
pub fn find_argument<'a>(arguments: &'a Vec<Argument>, name: &str) -> (result: Option<&'a Argument>)
    ensures
        result == match argument_named(arguments@, name@) {
            Some(argument) => Some(&argument),
            None => None,
        },
{
    let ghost p = argument_has_name(name@);
    assert(arguments@.skip(0) =~= arguments@);
    let mut i: usize = 0;
    while i < arguments.len()
        invariant
            i <= arguments.len(),
            p == argument_has_name(name@),
            argument_named(arguments@, name@) == lookup::first_match(arguments@.skip(i as int), p),
        decreases arguments.len() - i,
    {
        proof {
            lookup::lemma_first_match_step(arguments@, p, i as int);
        }
        if same_text(arguments[i].name.as_str(), name) {
            return Some(&arguments[i]);
        }
        i += 1;
    }
    None
}

/// A directive applied to a part of a document.
#[derive(Debug)]
pub struct Directive {
    pub name: Name,
    pub arguments: Vec<Argument>,
}

/// Whether a directive has the given name.
pub open spec fn directive_has_name(name: Seq<char>) -> spec_fn(Directive) -> bool {
    |directive: Directive| directive.name@ == name
}

/// The first of `directives` with the given name.
pub open spec fn directive_named(directives: Seq<Directive>, name: Seq<char>) -> Option<Directive> {
    lookup::first_match(directives, directive_has_name(name))
}

/// A directive is found by a name exactly where it has that name and none before it has. None is found
/// exactly where none has it.
pub proof fn lemma_directive_named(directives: Seq<Directive>, name: Seq<char>)
    ensures
        directive_named(directives, name) is None <==> forall|i: int|
            0 <= i < directives.len() ==> (#[trigger] directives[i]).name@ != name,
        forall|i: int|
            0 <= i < directives.len() && (#[trigger] directives[i]).name@ == name && (forall|j: int|
                0 <= j < i ==> (#[trigger] directives[j]).name@ != name) ==> directive_named(
                directives,
                name,
            ) == Some(directives[i]),
{
    let p = directive_has_name(name);
    lookup::lemma_first_match(directives, p);
    assert forall|i: int|
        0 <= i < directives.len() && (#[trigger] directives[i]).name@ == name && (forall|j: int|
            0 <= j < i ==> (#[trigger] directives[j]).name@ != name) implies directive_named(
        directives,
        name,
    ) == Some(directives[i]) by {
        lookup::lemma_is_first_match(directives, p, i);
    }
    if directive_named(directives, name) is None {
        assert forall|i: int| 0 <= i < directives.len() implies (#[trigger] directives[i]).name@ != name by {
            assert(!p(directives[i]));
        }
    } else {
        let i = lookup::lemma_first_match_at(directives, p);
        assert(directives[i].name@ == name);
    }
}

/// The first of `directives` with the given name.
pub fn find_directive<'a>(directives: &'a Vec<Directive>, name: &str) -> (result: Option<
    &'a Directive,
>)
    ensures
        result == match directive_named(directives@, name@) {
            Some(directive) => Some(&directive),
            None => None,
        },
{
    let ghost p = directive_has_name(name@);
    assert(directives@.skip(0) =~= directives@);
    let mut i: usize = 0;
    while i < directives.len()
        invariant
            i <= directives.len(),
            p == directive_has_name(name@),
            directive_named(directives@, name@) == lookup::first_match(directives@.skip(i as int), p),
        decreases directives.len() - i,
    {
        proof {
            lookup::lemma_first_match_step(directives@, p, i as int);
        }
        if same_text(directives[i].name.as_str(), name) {
            return Some(&directives[i]);
        }
        i += 1;
    }
    None
}

/// A field selected from a type.
#[derive(Debug)]
pub struct Field {
    pub alias: Option<Name>,
    pub name: Name,
    pub arguments: Vec<Argument>,
    pub directives: Vec<Directive>,
    pub selection_set: Vec<Selection>,
    pub location: Option<NodeLocation>,
}

impl Field {
    /// The name under which the field stands in the response: its alias where it has one.
    pub open spec fn response_key(&self) -> Seq<char> {
        match self.alias {
            Some(alias) => alias@,
            None => self.name@,
        }
    }

    /// The name under which the field stands in the response: its alias where it has one.
    pub fn response_name(&self) -> (result: &Name)
        ensures
            result@ == self.response_key(),
    {
        match &self.alias {
            Some(alias) => alias,
            None => &self.name,
        }
    }
}

/// The use of a named fragment.
#[derive(Debug)]
pub struct FragmentSpread {
    pub fragment_name: Name,
    pub directives: Vec<Directive>,
    pub location: Option<NodeLocation>,
}

/// A fragment written where it is used. Without a type condition it selects from the type around
/// it.
#[derive(Debug)]
pub struct InlineFragment {
    pub type_condition: Option<NamedType>,
    pub directives: Vec<Directive>,
    pub selection_set: Vec<Selection>,
    pub location: Option<NodeLocation>,
}

/// One member of a selection set.
#[derive(Debug)]
pub enum Selection {
    Field(Field),
    FragmentSpread(FragmentSpread),
    InlineFragment(InlineFragment),
}

impl Selection {
    pub open spec fn spec_location(&self) -> Option<NodeLocation> {
        match self {
            Selection::Field(field) => field.location,
            Selection::FragmentSpread(spread) => spread.location,
            Selection::InlineFragment(inline) => inline.location,
        }
    }

    /// Where the selection was written.
    #[verifier::when_used_as_spec(spec_location)]
    pub fn location(&self) -> (result: Option<NodeLocation>)
        ensures
            result == self.spec_location(),
    {
        match self {
            Selection::Field(field) => field.location,
            Selection::FragmentSpread(spread) => spread.location,
            Selection::InlineFragment(inline) => inline.location,
        }
    }
}

/// A named fragment.
#[derive(Debug)]
pub struct FragmentDefinition {
    pub name: Name,
    pub type_condition: NamedType,
    pub directives: Vec<Directive>,
    pub selection_set: Vec<Selection>,
}

/// An argument that a field takes.
#[derive(Debug)]
pub struct InputValueDefinition {
    pub description: Option<String>,
    pub name: Name,
    pub ty: Type,
    pub default_value: Option<Value>,
}

/// A field that a type has.
#[derive(Debug)]
pub struct FieldDefinition {
    pub description: Option<String>,
    pub name: Name,
    pub arguments: Vec<InputValueDefinition>,
    pub ty: Type,
    pub directives: Vec<Directive>,
}

/// The definition of an object type in a document.
#[derive(Debug)]
pub struct ObjectTypeDefinition {
    pub description: Option<String>,
    pub name: Name,
    pub implements_interfaces: Vec<Name>,
    pub directives: Vec<Directive>,
    pub fields: Vec<FieldDefinition>,
}

/// One definition of a document.
#[derive(Debug)]
pub enum Definition {
    ObjectTypeDefinition(ObjectTypeDefinition),
    FragmentDefinition(FragmentDefinition),
    /// A definition of any other kind, as it is written.
    Other(String),
}

/// A document: its definitions in the order in which they are written.
#[derive(Debug)]
pub struct Document {
    pub definitions: Vec<Definition>,
}

} // verus!
