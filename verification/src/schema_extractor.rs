//! Schema extractor: a function's prompt and the types that it refers to.
//!
//! [`ItemTree`] holds what the compiler knows of a project's declarations. For
//! a given function the extractor produces an [`OptimizableFunction`]:
//!
//! * `prompt_text`: the raw template of the function's `prompt #"..."#` block.
//! * `classes` and `enums`: the user-defined types transitively reachable from
//!   the function's parameters and return type, with their `@description`,
//!   `@alias` and `@@description` annotations.
//!
//! Types are looked up across the whole project, not just the file that holds
//! the function.

use vstd::prelude::*;
use vstd::string::*;

use crate::assoc::{put, put_pair};
use crate::candidate::{
    ClassDefinition, ClassModel, EnumDefinition, EnumModel, FieldModel, FunctionModel,
    OptimizableFunction, SchemaFieldDefinition,
};
use crate::text::{
    chars_of, first_in, join, join_strings, lemma_seek, lemma_seek_is, lowercase, lowered,
    same_text,
};

verus! {

// ---------------------------------------------------------------------------
// Declarations
// ---------------------------------------------------------------------------

/// A type expression.
///
/// `Media` carries the name of the media kind and `Literal` the debug form of
/// the literal.
#[derive(Debug)]
pub enum TypeExpr {
    Path { segments: Vec<String>, generic_args: Vec<TypeExpr> },
    Optional { inner: Box<TypeExpr> },
    List { inner: Box<TypeExpr> },
    Mapping { key: Box<TypeExpr>, value: Box<TypeExpr> },
    Union { variants: Vec<TypeExpr> },
    Function { params: Vec<TypeExpr>, ret: Box<TypeExpr> },
    Int,
    Float,
    Text,
    Bool,
    Null,
    Never,
    Void,
    Uint8Array,
    Media { kind: String },
    Literal { text: String },
    BuiltinUnknown,
    Unknown,
    Type,
    Rust,
    Error,
}

/// An attribute `@name(args)` or `@@name(args)`; an argument is the source
/// text of its value.
#[derive(Debug)]
pub struct Attribute {
    pub name: String,
    pub args: Vec<String>,
}

/// A class field.
#[derive(Debug)]
pub struct Field {
    pub name: String,
    pub type_expr: Option<TypeExpr>,
    pub attributes: Vec<Attribute>,
}

/// A class.
#[derive(Debug)]
pub struct Class {
    pub name: String,
    pub fields: Vec<Field>,
    pub attributes: Vec<Attribute>,
}

/// A variant of an enum.
#[derive(Debug)]
pub struct Variant {
    pub name: String,
    pub attributes: Vec<Attribute>,
}

/// An enum.
#[derive(Debug)]
pub struct Enum {
    pub name: String,
    pub variants: Vec<Variant>,
}

/// The declarative part of an LLM function: its prompt, if it has one.
#[derive(Debug)]
pub struct LlmMeta {
    pub prompt: Option<String>,
}

/// A function. A parameter without a type is `None`.
#[derive(Debug)]
pub struct Function {
    pub name: String,
    pub params: Vec<Option<TypeExpr>>,
    pub return_type: Option<TypeExpr>,
    pub declarative_meta: Option<LlmMeta>,
}

/// The declarations of a project, file after file.
#[derive(Debug)]
pub struct ItemTree {
    pub classes: Vec<Class>,
    pub enums: Vec<Enum>,
    pub functions: Vec<Function>,
}

// ---------------------------------------------------------------------------
// Display
// ---------------------------------------------------------------------------

/// The short display string of a type expression.
pub open spec fn type_text(ty: TypeExpr) -> Seq<char>
    decreases ty,
{
    match ty {
        TypeExpr::Path { segments, generic_args } => {
            let base = join(segments.deep_view(), "."@);
            if generic_args@.len() == 0 {
                base
            } else {
                base + "<"@ + join(type_texts(generic_args@), ", "@) + ">"@
            }
        },
        TypeExpr::Optional { inner } => type_text(*inner) + "?"@,
        TypeExpr::List { inner } => type_text(*inner) + "[]"@,
        TypeExpr::Mapping { key, value } => "map<"@ + type_text(*key) + ", "@ + type_text(*value)
            + ">"@,
        TypeExpr::Union { variants } => join(type_texts(variants@), " | "@),
        TypeExpr::Function { .. } => "function"@,
        TypeExpr::Int => "int"@,
        TypeExpr::Float => "float"@,
        TypeExpr::Text => "string"@,
        TypeExpr::Bool => "bool"@,
        TypeExpr::Null => "null"@,
        TypeExpr::Never => "never"@,
        TypeExpr::Void => "void"@,
        TypeExpr::Uint8Array => "Uint8Array"@,
        TypeExpr::Media { kind } => lowered(kind@),
        TypeExpr::Literal { text } => text@,
        TypeExpr::BuiltinUnknown => "unknown"@,
        TypeExpr::Unknown => "unknown"@,
        TypeExpr::Type => "type"@,
        TypeExpr::Rust => "rust"@,
        TypeExpr::Error => "<error>"@,
    }
}

/// The display strings of several type expressions.
pub open spec fn type_texts(types: Seq<TypeExpr>) -> Seq<Seq<char>>
    decreases types,
{
    if types.len() == 0 {
        Seq::empty()
    } else {
        type_texts(types.drop_last()).push(type_text(types.last()))
    }
}

/// Renders each of the type expressions.
fn format_types(types: &Vec<TypeExpr>) -> (r: Vec<String>)
    ensures
        r.deep_view() == type_texts(types@),
    decreases types,
{
    let mut out: Vec<String> = Vec::new();
    let mut k: usize = 0;
    proof {
        assert(types@.take(0) =~= Seq::<TypeExpr>::empty());
        assert(out.deep_view() =~= type_texts(types@.take(0)));
    }
    while k < types.len()
        invariant
            k <= types.len(),
            out.deep_view() == type_texts(types@.take(k as int)),
        decreases types.len() - k,
    {
        let ghost before = out.deep_view();
        let text = format_type(&types[k]);
        proof {
            assert(types@.take(k + 1).drop_last() =~= types@.take(k as int));
        }
        out.push(text);
        assert(out.deep_view() =~= before.push(text@));
        k = k + 1;
    }
    assert(types@.take(types@.len() as int) =~= types@);
    out
}

/// Renders a type expression as the short display string used in the
/// reflection prompt (e.g. `Person`, `string[]`, `map<string, int>`).
pub fn format_type(ty: &TypeExpr) -> (r: String)
    ensures
        r@ == type_text(*ty),
    decreases ty,
{
    match ty {
        TypeExpr::Path { segments, generic_args } => {
            let mut out = join_strings(segments, ".");
            if generic_args.len() > 0 {
                let args = format_types(generic_args);
                out.append("<");
                out.append(join_strings(&args, ", ").as_str());
                out.append(">");
            }
            out
        },
        TypeExpr::Optional { inner } => format_type(inner).concat("?"),
        TypeExpr::List { inner } => format_type(inner).concat("[]"),
        TypeExpr::Mapping { key, value } => {
            let mut out = String::from_str("map<");
            out.append(format_type(key).as_str());
            out.append(", ");
            out.append(format_type(value).as_str());
            out.append(">");
            out
        },
        TypeExpr::Union { variants } => join_strings(&format_types(variants), " | "),
        TypeExpr::Function { .. } => String::from_str("function"),
        TypeExpr::Int => String::from_str("int"),
        TypeExpr::Float => String::from_str("float"),
        TypeExpr::Text => String::from_str("string"),
        TypeExpr::Bool => String::from_str("bool"),
        TypeExpr::Null => String::from_str("null"),
        TypeExpr::Never => String::from_str("never"),
        TypeExpr::Void => String::from_str("void"),
        TypeExpr::Uint8Array => String::from_str("Uint8Array"),
        TypeExpr::Media { kind } => lowercase(kind.as_str()),
        TypeExpr::Literal { text } => text.clone(),
        TypeExpr::BuiltinUnknown => String::from_str("unknown"),
        TypeExpr::Unknown => String::from_str("unknown"),
        TypeExpr::Type => String::from_str("type"),
        TypeExpr::Rust => String::from_str("rust"),
        TypeExpr::Error => String::from_str("<error>"),
    }
}

// ---------------------------------------------------------------------------
// Attributes
// ---------------------------------------------------------------------------

/// What `\c` stands for in a string literal: a quote, a backslash or a line
/// break. Any other escape is kept as it is written.
pub open spec fn escape_value(c: char) -> Seq<char> {
    if c == '"' {
        seq!['"']
    } else if c == '\\' {
        seq!['\\']
    } else if c == 'n' {
        seq!['\n']
    } else {
        seq!['\\', c]
    }
}

/// The text between the quotes of a string literal, with its escapes resolved.
pub open spec fn unescaped(s: Seq<char>) -> Seq<char>
    decreases s.len(),
{
    if s.len() == 0 {
        Seq::empty()
    } else if s[0] != '\\' {
        seq![s[0]] + unescaped(s.skip(1))
    } else if s.len() == 1 {
        s
    } else {
        escape_value(s[1]) + unescaped(s.skip(2))
    }
}

/// The value of a quoted string; none for anything else.
pub open spec fn literal_value(raw: Seq<char>) -> Option<Seq<char>> {
    if raw.len() < 2 || raw[0] != '"' || raw.last() != '"' {
        None
    } else {
        Some(unescaped(raw.subrange(1, raw.len() - 1)))
    }
}

/// Strips the outer `"..."` from a literal-source string and resolves its
/// escapes (`\"`, `\\`, `\n`). Returns `None` if the input is not a
/// quoted string: nothing is surfaced in that case rather than raw source.
pub fn strip_string_literal(raw: &str) -> (r: Option<String>)
    ensures
        r.deep_view() == literal_value(raw@),
{
    let s = chars_of(raw);
    if s.len() < 2 || s[0] != '"' || s[s.len() - 1] != '"' {
        return None;
    }
    let end: usize = s.len() - 1;
    let ghost inner = raw@.subrange(1, end as int);
    let mut out = String::new();
    let mut i: usize = 1;
    proof {
        assert(inner.skip(0) =~= inner);
        assert(out@ + unescaped(inner) =~= unescaped(inner));
    }
    while i < end
        invariant
            1 <= i <= end,
            end == s.len() - 1,
            s@ == raw@,
            inner == raw@.subrange(1, end as int),
            out@ + unescaped(inner.skip(i - 1)) == unescaped(inner),
        decreases end - i,
    {
        let c = s[i];
        let ghost rest = inner.skip(i - 1);
        let ghost before = out@;
        assert(rest[0] == c);
        if c == '\\' {
            if i + 1 >= end {
                out.push('\\');
                proof {
                    assert(rest =~= seq!['\\']);
                    assert(inner.skip(i as int) =~= Seq::<char>::empty());
                    assert(out@ + unescaped(inner.skip(i as int)) =~= before + unescaped(rest));
                }
                i = i + 1;
            } else {
                let d = s[i + 1];
                proof {
                    assert(rest[1] == d);
                    assert(rest.skip(2) =~= inner.skip(i + 1));
                }
                if d == '"' {
                    out.push('"');
                } else if d == '\\' {
                    out.push('\\');
                } else if d == 'n' {
                    out.push('\n');
                } else {
                    out.push('\\');
                    out.push(d);
                }
                proof {
                    assert(out@ =~= before + escape_value(d));
                    assert(out@ + unescaped(inner.skip(i + 1)) =~= before + unescaped(rest));
                }
                i = i + 2;
            }
        } else {
            out.push(c);
            proof {
                assert(rest.skip(1) =~= inner.skip(i as int));
                assert(out@ + unescaped(inner.skip(i as int)) =~= before + unescaped(rest));
            }
            i = i + 1;
        }
    }
    proof {
        assert(inner.skip(end - 1) =~= Seq::<char>::empty());
        assert(out@ + Seq::<char>::empty() =~= out@);
    }
    Some(out)
}

/// Holds at the attributes with the given name.
pub open spec fn attribute_named(attrs: Seq<Attribute>, name: Seq<char>) -> spec_fn(int) -> bool {
    |i: int| attrs[i].name@ == name
}

/// The string value of the first argument of the first attribute `name`; none
/// where there is no such attribute, no argument, or no quoted string.
pub open spec fn attribute_value(attrs: Seq<Attribute>, name: Seq<char>) -> Option<Seq<char>> {
    match first_in(attribute_named(attrs, name), 0, attrs.len() as int) {
        None => None,
        Some(i) => if attrs[i].args@.len() == 0 {
            None
        } else {
            literal_value(attrs[i].args@[0]@)
        },
    }
}

/// Finds `@<name>(...)` on a field or variant and returns the first argument's
/// string value. Returns `None` if the attribute is absent, has no arguments,
/// or the argument isn't a quoted string.
pub fn field_attr_value(attrs: &Vec<Attribute>, name: &str) -> (r: Option<String>)
    ensures
        r.deep_view() == attribute_value(attrs@, name@),
{
    let ghost p = attribute_named(attrs@, name@);
    let mut i: usize = 0;
    while i < attrs.len()
        invariant
            i <= attrs.len(),
            p == attribute_named(attrs@, name@),
            forall|j: int| 0 <= j < i ==> !#[trigger] p(j),
        decreases attrs.len() - i,
    {
        if same_text(attrs[i].name.as_str(), name) {
            proof {
                assert(p(i as int));
                lemma_seek_is(p, 0, attrs@.len() as int, i as int);
            }
            if attrs[i].args.len() == 0 {
                return None;
            }
            return strip_string_literal(attrs[i].args[0].as_str());
        }
        assert(!p(i as int));
        i = i + 1;
    }
    proof {
        lemma_seek_is(p, 0, attrs@.len() as int, i as int);
    }
    None
}

/// The same as [`field_attr_value`], for `@@<name>(...)` on a class: an
/// attribute has one shape, and `@@` shows in where it is attached.
pub fn block_attr_value(attrs: &Vec<Attribute>, name: &str) -> (r: Option<String>)
    ensures
        r.deep_view() == attribute_value(attrs@, name@),
{
    field_attr_value(attrs, name)
}

// ---------------------------------------------------------------------------
// Definitions
// ---------------------------------------------------------------------------

/// What is told of a field.
pub open spec fn field_model(field: Field) -> FieldModel {
    FieldModel {
        field_name: field.name@,
        field_type: match field.type_expr {
            Some(ty) => type_text(ty),
            None => "unknown"@,
        },
        description: attribute_value(field.attributes@, "description"@),
        alias: attribute_value(field.attributes@, "alias"@),
    }
}

/// What is told of a class.
pub open spec fn class_model(class: Class) -> ClassModel {
    ClassModel {
        class_name: class.name@,
        description: attribute_value(class.attributes@, "description"@),
        fields: class.fields@.map_values(|field: Field| field_model(field)),
    }
}

/// The described variants with their descriptions; the last description of a
/// name counts.
pub open spec fn variant_descriptions(variants: Seq<Variant>) -> Seq<(Seq<char>, Seq<char>)>
    decreases variants.len(),
{
    if variants.len() == 0 {
        Seq::empty()
    } else {
        let before = variant_descriptions(variants.drop_last());
        match attribute_value(variants.last().attributes@, "description"@) {
            Some(description) => put(before, variants.last().name@, description),
            None => before,
        }
    }
}

/// What is told of an enum.
pub open spec fn enum_model(en: Enum) -> EnumModel {
    EnumModel {
        enum_name: en.name@,
        values: en.variants@.map_values(|variant: Variant| variant.name@),
        value_descriptions: variant_descriptions(en.variants@),
    }
}

/// What is told of a field.
fn define_field(field: &Field) -> (r: SchemaFieldDefinition)
    ensures
        r.deep_view() == field_model(*field),
{
    SchemaFieldDefinition {
        field_name: field.name.clone(),
        field_type: match &field.type_expr {
            Some(ty) => format_type(ty),
            None => String::from_str("unknown"),
        },
        description: field_attr_value(&field.attributes, "description"),
        alias: field_attr_value(&field.attributes, "alias"),
    }
}

/// What is told of an enum.
fn define_enum(en: &Enum) -> (r: EnumDefinition)
    ensures
        r.deep_view() == enum_model(*en),
{
    let mut values: Vec<String> = Vec::new();
    let mut value_descriptions: Vec<(String, String)> = Vec::new();
    let mut k: usize = 0;
    proof {
        assert(en.variants@.take(0) =~= Seq::<Variant>::empty());
        assert(value_descriptions.deep_view() =~= Seq::<(Seq<char>, Seq<char>)>::empty());
    }
    while k < en.variants.len()
        invariant
            k <= en.variants.len(),
            values.len() == k,
            forall|j: int| 0 <= j < k ==> (#[trigger] values@[j])@ == en.variants@[j].name@,
            value_descriptions.deep_view() == variant_descriptions(en.variants@.take(k as int)),
        decreases en.variants.len() - k,
    {
        let variant = &en.variants[k];
        proof {
            assert(en.variants@.take(k + 1).drop_last() =~= en.variants@.take(k as int));
        }
        match field_attr_value(&variant.attributes, "description") {
            Some(description) => {
                put_pair(&mut value_descriptions, variant.name.clone(), description);
            },
            None => {},
        }
        values.push(variant.name.clone());
        k = k + 1;
    }
    proof {
        assert(en.variants@.take(en.variants@.len() as int) =~= en.variants@);
        assert(values.deep_view() =~= en.variants@.map_values(|variant: Variant| variant.name@));
    }
    EnumDefinition { enum_name: en.name.clone(), values, value_descriptions }
}

// ---------------------------------------------------------------------------
// References
// ---------------------------------------------------------------------------

/// Holds at the classes with the given name.
pub open spec fn class_with(classes: Seq<Class>, name: Seq<char>) -> spec_fn(int) -> bool {
    |i: int| classes[i].name@ == name
}

/// The class that a name stands for: the first of that name.
pub open spec fn class_named(classes: Seq<Class>, name: Seq<char>) -> Option<Class> {
    match first_in(class_with(classes, name), 0, classes.len() as int) {
        Some(i) => Some(classes[i]),
        None => None,
    }
}

/// Holds at the enums with the given name.
pub open spec fn enum_with(enums: Seq<Enum>, name: Seq<char>) -> spec_fn(int) -> bool {
    |i: int| enums[i].name@ == name
}

/// The enum that a name stands for, where no class has the name: the first of
/// that name.
pub open spec fn enum_named(enums: Seq<Enum>, name: Seq<char>) -> Option<Enum> {
    match first_in(enum_with(enums, name), 0, enums.len() as int) {
        Some(i) => Some(enums[i]),
        None => None,
    }
}

/// What has been collected on the way, and the classes that have been entered.
pub ghost struct Collected {
    pub classes: Seq<ClassModel>,
    pub enums: Seq<EnumModel>,
    pub entered: Seq<Seq<char>>,
}

/// An enum of that name has been collected.
pub open spec fn has_enum(enums: Seq<EnumModel>, name: Seq<char>) -> bool {
    exists|i: int| 0 <= i < enums.len() && (#[trigger] enums[i]).enum_name == name
}

/// What has been collected after a name. A class is entered once: the types of
/// its fields come first, then the class itself. `depth` bounds how many
/// classes are entered inside each other.
pub open spec fn collect_name(
    name: Seq<char>,
    items: ItemTree,
    before: Collected,
    depth: nat,
) -> Collected
    decreases depth, 0nat, items,
{
    match class_named(items.classes@, name) {
        Some(class) => if before.entered.contains(name) || depth == 0 {
            before
        } else {
            let inner = collect_fields(
                class.fields@,
                items,
                Collected { entered: before.entered.push(name), ..before },
                (depth - 1) as nat,
            );
            Collected { classes: inner.classes.push(class_model(class)), ..inner }
        },
        None => match enum_named(items.enums@, name) {
            Some(en) => if has_enum(before.enums, name) {
                before
            } else {
                Collected { enums: before.enums.push(enum_model(en)), ..before }
            },
            None => before,
        },
    }
}

/// What has been collected after a type expression. Only paths of one segment
/// name user-defined types.
pub open spec fn collect_type(
    ty: TypeExpr,
    items: ItemTree,
    before: Collected,
    depth: nat,
) -> Collected
    decreases depth, 1nat, ty,
{
    match ty {
        TypeExpr::Path { segments, generic_args } => {
            let named = if segments@.len() == 1 {
                collect_name(segments@[0]@, items, before, depth)
            } else {
                before
            };
            collect_types(generic_args@, items, named, depth)
        },
        TypeExpr::Optional { inner } => collect_type(*inner, items, before, depth),
        TypeExpr::List { inner } => collect_type(*inner, items, before, depth),
        TypeExpr::Mapping { key, value } => collect_type(
            *value,
            items,
            collect_type(*key, items, before, depth),
            depth,
        ),
        TypeExpr::Union { variants } => collect_types(variants@, items, before, depth),
        TypeExpr::Function { params, ret } => collect_type(
            *ret,
            items,
            collect_types(params@, items, before, depth),
            depth,
        ),
        _ => before,
    }
}

/// What has been collected after several type expressions, in order.
pub open spec fn collect_types(
    types: Seq<TypeExpr>,
    items: ItemTree,
    before: Collected,
    depth: nat,
) -> Collected
    decreases depth, 1nat, types,
{
    if types.len() == 0 {
        before
    } else {
        collect_type(
            types.last(),
            items,
            collect_types(types.drop_last(), items, before, depth),
            depth,
        )
    }
}

/// What has been collected after the types of some fields, in order.
pub open spec fn collect_fields(
    fields: Seq<Field>,
    items: ItemTree,
    before: Collected,
    depth: nat,
) -> Collected
    decreases depth, 2nat, fields,
{
    if fields.len() == 0 {
        before
    } else {
        let front = collect_fields(fields.drop_last(), items, before, depth);
        match fields.last().type_expr {
            Some(ty) => collect_type(ty, items, front, depth),
            None => front,
        }
    }
}

/// The names of the classes.
pub open spec fn class_names(classes: Seq<Class>) -> Seq<Seq<char>> {
    classes.map_values(|class: Class| class.name@)
}

/// How many names of classes are left to enter.
pub open spec fn room(items: ItemTree, st: Collected) -> nat {
    class_names(items.classes@).to_set().difference(st.entered.to_set()).len()
}

/// What has been entered stays entered.
pub open spec fn keeps_entered(before: Collected, after: Collected) -> bool {
    forall|n: Seq<char>| #[trigger] before.entered.contains(n) ==> after.entered.contains(n)
}

/// A class that a name stands for has that name and belongs to the project.
pub proof fn lemma_class_named(classes: Seq<Class>, name: Seq<char>)
    ensures
        class_named(classes, name) matches Some(class) ==> class.name@ == name && classes.contains(
            class,
        ),
{
    lemma_seek(class_with(classes, name), 0, classes.len() as int);
}

/// An enum that a name stands for has that name.
pub proof fn lemma_enum_named(enums: Seq<Enum>, name: Seq<char>)
    ensures
        enum_named(enums, name) matches Some(en) ==> en.name@ == name,
{
    lemma_seek(enum_with(enums, name), 0, enums.len() as int);
}

/// Entering one more name keeps the others.
pub proof fn lemma_keeps_entered(before: Collected, name: Seq<char>)
    ensures
        keeps_entered(before, Collected { entered: before.entered.push(name), ..before }),
{
    let entered = before.entered.push(name);
    assert forall|n: Seq<char>| #[trigger] before.entered.contains(n) implies entered.contains(n) by {
        let i = choose|i: int| 0 <= i < before.entered.len() && before.entered[i] == n;
        assert(entered[i] == n);
    }
}

/// There is room for no more names than there are classes, and for no more
/// than before once more has been entered.
pub proof fn lemma_room(items: ItemTree, before: Collected, after: Collected)
    requires
        keeps_entered(before, after),
    ensures
        room(items, before) <= items.classes@.len(),
        room(items, after) <= room(items, before),
{
    let names = class_names(items.classes@);
    let left = names.to_set().difference(before.entered.to_set());
    let less = names.to_set().difference(after.entered.to_set());
    vstd::seq_lib::seq_to_set_is_finite(names);
    names.lemma_cardinality_of_set();
    vstd::set_lib::lemma_len_subset(left, names.to_set());
    assert(less.subset_of(left)) by {
        assert forall|n: Seq<char>| less.contains(n) implies left.contains(n) by {
            if before.entered.to_set().contains(n) {
                assert(before.entered.contains(n));
                assert(after.entered.contains(n));
            }
        }
    }
    vstd::set_lib::lemma_len_subset(less, left);
}

/// Entering a class takes up room.
pub proof fn lemma_room_entered(items: ItemTree, before: Collected, name: Seq<char>)
    requires
        class_named(items.classes@, name) is Some,
        !before.entered.contains(name),
    ensures
        room(items, Collected { entered: before.entered.push(name), ..before }) + 1 == room(
            items,
            before,
        ),
{
    let names = class_names(items.classes@);
    let entered = before.entered.push(name);
    let left = names.to_set().difference(before.entered.to_set());
    let less = names.to_set().difference(entered.to_set());
    lemma_class_named(items.classes@, name);
    let class = class_named(items.classes@, name)->0;
    let j = choose|j: int| 0 <= j < items.classes@.len() && items.classes@[j] == class;
    assert(names[j] == name);
    assert(names.contains(name));
    vstd::seq_lib::seq_to_set_is_finite(names);
    assert(left.contains(name));
    assert forall|n: Seq<char>| #[trigger] entered.contains(n) <==> before.entered.contains(n) || n
        == name by {
        if before.entered.contains(n) {
            let i = choose|i: int| 0 <= i < before.entered.len() && before.entered[i] == n;
            assert(entered[i] == n);
        }
        assert(entered[before.entered.len() as int] == name);
    }
    assert(less =~= left.remove(name)) by {
        assert forall|n: Seq<char>| less.contains(n) <==> left.remove(name).contains(n) by {
            assert(entered.to_set().contains(n) <==> entered.contains(n));
            assert(before.entered.to_set().contains(n) <==> before.entered.contains(n));
        }
    }
}

/// What has been collected on the way, and the classes that have been entered.
#[derive(Debug)]
pub struct Collector {
    pub classes: Vec<ClassDefinition>,
    pub enums: Vec<EnumDefinition>,
    pub entered: Vec<String>,
}

impl Collector {
    /// What the collector holds.
    pub open spec fn model(&self) -> Collected {
        Collected {
            classes: self.classes.deep_view(),
            enums: self.enums.deep_view(),
            entered: self.entered.deep_view(),
        }
    }
}

/// The class that a name stands for.
fn find_class<'a>(classes: &'a Vec<Class>, name: &str) -> (r: Option<&'a Class>)
    ensures
        match r {
            Some(class) => class_named(classes@, name@) == Some(*class),
            None => class_named(classes@, name@) is None,
        },
{
    let ghost p = class_with(classes@, name@);
    let mut i: usize = 0;
    while i < classes.len()
        invariant
            i <= classes.len(),
            p == class_with(classes@, name@),
            forall|j: int| 0 <= j < i ==> !#[trigger] p(j),
        decreases classes.len() - i,
    {
        if same_text(classes[i].name.as_str(), name) {
            proof {
                assert(p(i as int));
                lemma_seek_is(p, 0, classes@.len() as int, i as int);
            }
            return Some(&classes[i]);
        }
        assert(!p(i as int));
        i = i + 1;
    }
    proof {
        lemma_seek_is(p, 0, classes@.len() as int, i as int);
    }
    None
}

/// The enum that a name stands for.
fn find_enum<'a>(enums: &'a Vec<Enum>, name: &str) -> (r: Option<&'a Enum>)
    ensures
        match r {
            Some(en) => enum_named(enums@, name@) == Some(*en),
            None => enum_named(enums@, name@) is None,
        },
{
    let ghost p = enum_with(enums@, name@);
    let mut i: usize = 0;
    while i < enums.len()
        invariant
            i <= enums.len(),
            p == enum_with(enums@, name@),
            forall|j: int| 0 <= j < i ==> !#[trigger] p(j),
        decreases enums.len() - i,
    {
        if same_text(enums[i].name.as_str(), name) {
            proof {
                assert(p(i as int));
                lemma_seek_is(p, 0, enums@.len() as int, i as int);
            }
            return Some(&enums[i]);
        }
        assert(!p(i as int));
        i = i + 1;
    }
    proof {
        lemma_seek_is(p, 0, enums@.len() as int, i as int);
    }
    None
}

/// Whether an enum of that name has been collected.
fn enum_collected(enums: &Vec<EnumDefinition>, name: &str) -> (r: bool)
    ensures
        r == has_enum(enums.deep_view(), name@),
{
    let mut i: usize = 0;
    while i < enums.len()
        invariant
            i <= enums.len(),
            forall|j: int| 0 <= j < i ==> (#[trigger] enums@[j]).enum_name@ != name@,
        decreases enums.len() - i,
    {
        if same_text(enums[i].enum_name.as_str(), name) {
            assert(enums.deep_view()[i as int].enum_name == name@);
            return true;
        }
        i = i + 1;
    }
    assert forall|j: int| 0 <= j < enums.deep_view().len() implies (
    #[trigger] enums.deep_view()[j]).enum_name != name@ by {
        assert(enums.deep_view()[j].enum_name == enums@[j].enum_name@);
    }
    false
}

/// Collects what a name stands for.
pub fn collect_from_name(name: &String, items: &ItemTree, out: &mut Collector)
    ensures
        keeps_entered(old(out).model(), final(out).model()),
        forall|depth: nat|
            depth >= room(*items, old(out).model()) ==> final(out).model()
                == #[trigger] collect_name(name@, *items, old(out).model(), depth),
    decreases room(*items, old(out).model()), 0nat, items,
{
    let ghost start = out.model();
    match find_class(&items.classes, name.as_str()) {
        Some(class) => {
            proof {
                lemma_class_named(items.classes@, name@);
            }
            if crate::text::has_text(&out.entered, name.as_str()) {
                return;
            }
            out.entered.push(name.clone());
            let ghost entry = out.model();
            proof {
                assert(entry.entered =~= start.entered.push(name@));
                assert(entry == Collected { entered: start.entered.push(name@), ..start });
                lemma_room_entered(*items, start, name@);
                lemma_keeps_entered(start, name@);
            }
            let mut fields: Vec<SchemaFieldDefinition> = Vec::new();
            let mut k: usize = 0;
            proof {
                assert(class.fields@.take(0) =~= Seq::<Field>::empty());
            }
            while k < class.fields.len()
                invariant
                    k <= class.fields.len(),
                    fields.len() == k,
                    forall|j: int|
                        0 <= j < k ==> (#[trigger] fields@[j]).deep_view() == field_model(
                            class.fields@[j],
                        ),
                    keeps_entered(entry, out.model()),
                    start == old(out).model(),
                    room(*items, entry) + 1 == room(*items, start),
                    forall|depth: nat|
                        depth >= room(*items, entry) ==> out.model() == #[trigger] collect_fields(
                            class.fields@.take(k as int),
                            *items,
                            entry,
                            depth,
                        ),
                decreases class.fields.len() - k,
            {
                let field = &class.fields[k];
                let ghost before = out.model();
                proof {
                    assert(class.fields@.take(k + 1).drop_last() =~= class.fields@.take(k as int));
                    lemma_room(*items, entry, before);
                }
                match &field.type_expr {
                    Some(ty) => {
                        collect_from_type(ty, items, out);
                    },
                    None => {},
                }
                proof {
                    assert forall|depth: nat| depth >= room(*items, entry) implies out.model()
                        == #[trigger] collect_fields(
                        class.fields@.take(k + 1),
                        *items,
                        entry,
                        depth,
                    ) by {
                        assert(before == collect_fields(
                            class.fields@.take(k as int),
                            *items,
                            entry,
                            depth,
                        ));
                        assert(class.fields@.take(k + 1).last() == *field);
                        match field.type_expr {
                            Some(ty) => {
                                assert(out.model() == collect_type(ty, *items, before, depth));
                            },
                            None => {},
                        }
                    }
                }
                fields.push(define_field(field));
                k = k + 1;
            }
            let ghost inner = out.model();
            let definition = ClassDefinition {
                class_name: class.name.clone(),
                description: block_attr_value(&class.attributes, "description"),
                fields,
            };
            proof {
                assert(class.fields@.take(class.fields@.len() as int) =~= class.fields@);
                assert(fields.deep_view() =~= class.fields@.map_values(
                    |field: Field| field_model(field),
                ));
                assert(definition.deep_view() == class_model(*class));
            }
            out.classes.push(definition);
            proof {
                assert(out.model().classes =~= inner.classes.push(class_model(*class)));
                assert forall|depth: nat| depth >= room(*items, start) implies out.model()
                    == #[trigger] collect_name(name@, *items, start, depth) by {
                    let below = (depth - 1) as nat;
                    assert(inner == collect_fields(class.fields@, *items, entry, below));
                }
            }
        },
        None => {
            match find_enum(&items.enums, name.as_str()) {
                Some(en) => {
                    if !enum_collected(&out.enums, name.as_str()) {
                        out.enums.push(define_enum(en));
                        assert(out.model().enums =~= start.enums.push(enum_model(*en)));
                    }
                },
                None => {},
            }
        },
    }
}

/// Recursively walks a single type expression, materialising any named class
/// or enum along the way.
pub fn collect_from_type(ty: &TypeExpr, items: &ItemTree, out: &mut Collector)
    ensures
        keeps_entered(old(out).model(), final(out).model()),
        forall|depth: nat|
            depth >= room(*items, old(out).model()) ==> final(out).model()
                == #[trigger] collect_type(*ty, *items, old(out).model(), depth),
    decreases room(*items, old(out).model()), 1nat, ty,
{
    let ghost start = out.model();
    match ty {
        TypeExpr::Path { segments, generic_args } => {
            if segments.len() == 1 {
                collect_from_name(&segments[0], items, out);
            }
            let ghost named = out.model();
            proof {
                lemma_room(*items, start, named);
            }
            collect_from_types(generic_args, items, out);
            proof {
                assert forall|depth: nat| depth >= room(*items, start) implies out.model()
                    == #[trigger] collect_type(*ty, *items, start, depth) by {
                    if segments@.len() == 1 {
                        assert(named == collect_name(segments@[0]@, *items, start, depth));
                    }
                    assert(out.model() == collect_types(generic_args@, *items, named, depth));
                }
            }
        },
        TypeExpr::Optional { inner } => {
            collect_from_type(inner, items, out);
            proof {
                assert forall|depth: nat| depth >= room(*items, start) implies out.model()
                    == #[trigger] collect_type(*ty, *items, start, depth) by {
                    assert(out.model() == collect_type(**inner, *items, start, depth));
                }
            }
        },
        TypeExpr::List { inner } => {
            collect_from_type(inner, items, out);
            proof {
                assert forall|depth: nat| depth >= room(*items, start) implies out.model()
                    == #[trigger] collect_type(*ty, *items, start, depth) by {
                    assert(out.model() == collect_type(**inner, *items, start, depth));
                }
            }
        },
        TypeExpr::Mapping { key, value } => {
            collect_from_type(key, items, out);
            let ghost keyed = out.model();
            proof {
                lemma_room(*items, start, keyed);
            }
            collect_from_type(value, items, out);
            proof {
                assert forall|depth: nat| depth >= room(*items, start) implies out.model()
                    == #[trigger] collect_type(*ty, *items, start, depth) by {
                    assert(keyed == collect_type(**key, *items, start, depth));
                    assert(out.model() == collect_type(**value, *items, keyed, depth));
                }
            }
        },
        TypeExpr::Union { variants } => {
            collect_from_types(variants, items, out);
            proof {
                assert forall|depth: nat| depth >= room(*items, start) implies out.model()
                    == #[trigger] collect_type(*ty, *items, start, depth) by {
                    assert(out.model() == collect_types(variants@, *items, start, depth));
                }
            }
        },
        TypeExpr::Function { params, ret } => {
            collect_from_types(params, items, out);
            let ghost taken = out.model();
            proof {
                lemma_room(*items, start, taken);
            }
            collect_from_type(ret, items, out);
            proof {
                assert forall|depth: nat| depth >= room(*items, start) implies out.model()
                    == #[trigger] collect_type(*ty, *items, start, depth) by {
                    assert(taken == collect_types(params@, *items, start, depth));
                    assert(out.model() == collect_type(**ret, *items, taken, depth));
                }
            }
        },
        _ => {},
    }
}

/// Walks several type expressions, in order.
pub fn collect_from_types(types: &Vec<TypeExpr>, items: &ItemTree, out: &mut Collector)
    ensures
        keeps_entered(old(out).model(), final(out).model()),
        forall|depth: nat|
            depth >= room(*items, old(out).model()) ==> final(out).model()
                == #[trigger] collect_types(types@, *items, old(out).model(), depth),
    decreases room(*items, old(out).model()), 1nat, types,
{
    let ghost start = out.model();
    let mut k: usize = 0;
    proof {
        assert(types@.take(0) =~= Seq::<TypeExpr>::empty());
    }
    while k < types.len()
        invariant
            k <= types.len(),
            start == old(out).model(),
            keeps_entered(start, out.model()),
            forall|depth: nat|
                depth >= room(*items, start) ==> out.model() == #[trigger] collect_types(
                    types@.take(k as int),
                    *items,
                    start,
                    depth,
                ),
        decreases types.len() - k,
    {
        let ghost before = out.model();
        proof {
            lemma_room(*items, start, before);
            assert(types@.take(k + 1).drop_last() =~= types@.take(k as int));
        }
        collect_from_type(&types[k], items, out);
        proof {
            assert forall|depth: nat| depth >= room(*items, start) implies out.model()
                == #[trigger] collect_types(types@.take(k + 1), *items, start, depth) by {
                assert(before == collect_types(types@.take(k as int), *items, start, depth));
                assert(out.model() == collect_type(types@[k as int], *items, before, depth));
            }
        }
        k = k + 1;
    }
    assert(types@.take(types@.len() as int) =~= types@);
}

// ---------------------------------------------------------------------------
// Functions
// ---------------------------------------------------------------------------

/// The types that are there, in order.
pub open spec fn given_types(params: Seq<Option<TypeExpr>>) -> Seq<TypeExpr>
    decreases params.len(),
{
    if params.len() == 0 {
        Seq::empty()
    } else {
        match params.last() {
            Some(ty) => given_types(params.drop_last()).push(ty),
            None => given_types(params.drop_last()),
        }
    }
}

/// The types of a function's parameters, then its return type.
pub open spec fn signature_types(func: Function) -> Seq<TypeExpr> {
    match func.return_type {
        Some(ty) => given_types(func.params@).push(ty),
        None => given_types(func.params@),
    }
}

/// What a function's signature leads to.
pub open spec fn referenced(func: Function, items: ItemTree) -> Collected {
    collect_types(
        signature_types(func),
        items,
        Collected { classes: Seq::empty(), enums: Seq::empty(), entered: Seq::empty() },
        items.classes@.len(),
    )
}

/// Walks the function's parameter and return types and collects every
/// user-defined class and enum they touch, in the order of collection.
pub fn collect_referenced_types(func: &Function, items: &ItemTree) -> (r: (
    Vec<ClassDefinition>,
    Vec<EnumDefinition>,
))
    ensures
        r.0.deep_view() == referenced(*func, *items).classes,
        r.1.deep_view() == referenced(*func, *items).enums,
{
    let mut out = Collector { classes: Vec::new(), enums: Vec::new(), entered: Vec::new() };
    let ghost start = out.model();
    let ghost depth: nat = items.classes@.len();
    proof {
        assert(start.classes =~= Seq::<ClassModel>::empty());
        assert(start.enums =~= Seq::<EnumModel>::empty());
        assert(start.entered =~= Seq::<Seq<char>>::empty());
        assert(func.params@.take(0) =~= Seq::<Option<TypeExpr>>::empty());
    }
    let mut k: usize = 0;
    while k < func.params.len()
        invariant
            k <= func.params.len(),
            depth == items.classes@.len(),
            out.model() == collect_types(
                given_types(func.params@.take(k as int)),
                *items,
                start,
                depth,
            ),
        decreases func.params.len() - k,
    {
        let ghost before = out.model();
        proof {
            lemma_room(*items, before, before);
            assert(func.params@.take(k + 1).drop_last() =~= func.params@.take(k as int));
        }
        match &func.params[k] {
            Some(ty) => {
                collect_from_type(ty, items, &mut out);
                proof {
                    let front = given_types(func.params@.take(k as int));
                    assert(front.push(*ty).drop_last() =~= front);
                    assert(out.model() == collect_type(*ty, *items, before, depth));
                }
            },
            None => {},
        }
        k = k + 1;
    }
    proof {
        assert(func.params@.take(func.params@.len() as int) =~= func.params@);
        lemma_room(*items, out.model(), out.model());
    }
    let ghost taken = out.model();
    match &func.return_type {
        Some(ty) => {
            collect_from_type(ty, items, &mut out);
            proof {
                let front = given_types(func.params@);
                assert(front.push(*ty).drop_last() =~= front);
                assert(out.model() == collect_type(*ty, *items, taken, depth));
            }
        },
        None => {},
    }
    (out.classes, out.enums)
}

/// The raw template of a function's prompt, empty without one.
pub open spec fn prompt_of(func: Function) -> Seq<char> {
    match func.declarative_meta {
        Some(llm) => match llm.prompt {
            Some(text) => text@,
            None => Seq::empty(),
        },
        None => Seq::empty(),
    }
}

/// Pulls the raw template string out of the function's `prompt #"..."#` block.
/// Returns `""` when the function isn't declared with the declarative LLM
/// syntax.
pub fn extract_prompt_text(func: &Function) -> (r: String)
    ensures
        r@ == prompt_of(*func),
        r@ == match func.declarative_meta {
            Some(llm) => match llm.prompt {
                Some(text) => text@,
                None => Seq::empty(),
            },
            None => Seq::empty(),
        },
{
    match &func.declarative_meta {
        Some(llm) => match &llm.prompt {
            Some(text) => text.clone(),
            None => String::new(),
        },
        None => String::new(),
    }
}

/// The last function of that name.
pub open spec fn function_named(functions: Seq<Function>, name: Seq<char>) -> Option<Function>
    decreases functions.len(),
{
    if functions.len() == 0 {
        None
    } else if functions.last().name@ == name {
        Some(functions.last())
    } else {
        function_named(functions.drop_last(), name)
    }
}

/// The last function of that name.
fn find_function<'a>(functions: &'a Vec<Function>, name: &str) -> (r: Option<&'a Function>)
    ensures
        match r {
            Some(func) => function_named(functions@, name@) == Some(*func),
            None => function_named(functions@, name@) is None,
        },
{
    let mut i: usize = functions.len();
    proof {
        assert(functions@.take(functions@.len() as int) =~= functions@);
    }
    while i > 0
        invariant
            i <= functions.len(),
            function_named(functions@, name@) == function_named(functions@.take(i as int), name@),
        decreases i,
    {
        proof {
            assert(functions@.take(i as int).drop_last() =~= functions@.take(i - 1));
        }
        i = i - 1;
        if same_text(functions[i].name.as_str(), name) {
            return Some(&functions[i]);
        }
    }
    None
}

/// Why a function could not be extracted.
#[derive(Debug)]
pub enum ExtractError {
    /// The project has no function of that name.
    FunctionNotFound { name: String },
}

impl ExtractError {
    /// What to tell the user.
    pub fn message(&self) -> (r: String)
        ensures
            r@ == "function '"@ + self->name@ + "' not found"@,
    {
        match self {
            ExtractError::FunctionNotFound { name } => {
                let mut out = String::from_str("function '");
                out.append(name.as_str());
                out.append("' not found");
                out
            },
        }
    }
}

/// A function of the project with its prompt and all that its signature leads
/// to.
pub open spec fn extracted_function(items: ItemTree, name: Seq<char>) -> FunctionModel {
    let func = function_named(items.functions@, name)->0;
    FunctionModel {
        function_name: name,
        prompt_text: prompt_of(func),
        classes: referenced(func, items).classes,
        enums: referenced(func, items).enums,
        function_source: None,
    }
}

/// Locates the named function and returns an [`OptimizableFunction`] populated
/// with its prompt text and the transitively referenced classes and enums.
pub fn extract_optimizable_function(items: &ItemTree, function_name: &str) -> (r: Result<
    OptimizableFunction,
    ExtractError,
>)
    ensures
        match r {
            Ok(extracted) => function_named(items.functions@, function_name@) is Some
                && extracted.deep_view() == extracted_function(*items, function_name@),
            Err(ExtractError::FunctionNotFound { name }) => function_named(
                items.functions@,
                function_name@,
            ) is None && name@ == function_name@,
        },
{
    match find_function(&items.functions, function_name) {
        Some(func) => {
            let (classes, enums) = collect_referenced_types(func, items);
            Ok(
                OptimizableFunction {
                    function_name: String::from_str(function_name),
                    prompt_text: extract_prompt_text(func),
                    classes,
                    enums,
                    function_source: None,
                },
            )
        },
        None => Err(ExtractError::FunctionNotFound { name: String::from_str(function_name) }),
    }
}

} // verus!
