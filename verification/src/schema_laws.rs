//! What holds of every extraction: exactly the reachable types are collected,
//! each of them once.

use vstd::prelude::*;

use crate::assoc::{distinct_keys, lemma_key_position, lemma_put_distinct, lookup};
use crate::candidate::ClassModel;
use crate::schema_extractor::{
    attribute_named, attribute_value, class_model, class_named, collect_fields, collect_name,
    collect_type, collect_types, enum_model, enum_named, extracted_function, function_named,
    given_types, has_enum, lemma_class_named, lemma_enum_named, lemma_room, lemma_room_entered,
    literal_value, prompt_of, referenced, room, signature_types, type_text, type_texts, unescaped,
    variant_descriptions, Attribute, Class, Collected, Enum, Field, Function, ItemTree, TypeExpr,
    Variant,
};
use crate::selection_laws::lemma_put_lookup;
use crate::text::{join, lemma_seek_is};

verus! {

// ---------------------------------------------------------------------------
// Reachability
// ---------------------------------------------------------------------------

/// A type expression names `name`: a path of that one segment stands in it.
pub open spec fn mentions(ty: TypeExpr, name: Seq<char>) -> bool
    decreases ty,
{
    match ty {
        TypeExpr::Path { segments, generic_args } => (segments@.len() == 1 && segments@[0]@ == name)
            || some_mention(generic_args@, name),
        TypeExpr::Optional { inner } => mentions(*inner, name),
        TypeExpr::List { inner } => mentions(*inner, name),
        TypeExpr::Mapping { key, value } => mentions(*key, name) || mentions(*value, name),
        TypeExpr::Union { variants } => some_mention(variants@, name),
        TypeExpr::Function { params, ret } => some_mention(params@, name) || mentions(*ret, name),
        _ => false,
    }
}

/// One of the type expressions names `name`.
pub open spec fn some_mention(types: Seq<TypeExpr>, name: Seq<char>) -> bool
    decreases types,
{
    types.len() > 0 && (some_mention(types.drop_last(), name) || mentions(types.last(), name))
}

/// The type of one of the fields names `name`.
pub open spec fn fields_mention(fields: Seq<Field>, name: Seq<char>) -> bool
    decreases fields.len(),
{
    fields.len() > 0 && (fields_mention(fields.drop_last(), name) || match fields.last().type_expr {
        Some(ty) => mentions(ty, name),
        None => false,
    })
}

/// A field of class `class` names `name`.
pub open spec fn class_mentions(items: ItemTree, class: Seq<char>, name: Seq<char>) -> bool {
    match class_named(items.classes@, class) {
        Some(found) => fields_mention(found.fields@, name),
        None => false,
    }
}

/// The type of a parameter of the function, or its return type, names `name`.
pub open spec fn signature_mentions(func: Function, name: Seq<char>) -> bool {
    ||| exists|i: int|
        0 <= i < func.params@.len() && (#[trigger] func.params@[i] matches Some(ty) && mentions(
            ty,
            name,
        ))
    ||| func.return_type matches Some(ty) && mentions(ty, name)
}

/// The function's signature leads to `name` through `steps` classes.
pub open spec fn reached_in(func: Function, items: ItemTree, name: Seq<char>, steps: nat) -> bool
    decreases steps,
{
    if steps == 0 {
        signature_mentions(func, name)
    } else {
        exists|class: Seq<char>|
            #![trigger class_mentions(items, class, name)]
            reached_in(func, items, class, (steps - 1) as nat) && class_mentions(items, class, name)
    }
}

/// The function's signature leads to `name`.
pub open spec fn reachable(func: Function, items: ItemTree, name: Seq<char>) -> bool {
    exists|steps: nat| reached_in(func, items, name, steps)
}

// ---------------------------------------------------------------------------
// One step of the collection
// ---------------------------------------------------------------------------

/// A class of that name has been collected.
pub open spec fn has_class(classes: Seq<ClassModel>, name: Seq<char>) -> bool {
    exists|i: int| 0 <= i < classes.len() && (#[trigger] classes[i]).class_name == name
}

/// Whatever `name` stands for has been entered or collected.
spec fn covered(items: ItemTree, name: Seq<char>, st: Collected) -> bool {
    &&& class_named(items.classes@, name) is Some ==> st.entered.contains(name)
    &&& class_named(items.classes@, name) is None && enum_named(items.enums@, name) is Some
        ==> has_enum(st.enums, name)
}

/// Each class and each enum is collected once, and the classes have been
/// entered.
spec fn tidy(st: Collected) -> bool {
    &&& forall|i: int|
        0 <= i < st.classes.len() ==> st.entered.contains((#[trigger] st.classes[i]).class_name)
    &&& distinct_names(st)
}

/// No class and no enum is collected twice.
pub open spec fn distinct_names(st: Collected) -> bool {
    &&& forall|i: int, j: int|
        0 <= i < j < st.classes.len() ==> (#[trigger] st.classes[i]).class_name != (
        #[trigger] st.classes[j]).class_name
    &&& forall|i: int, j: int|
        0 <= i < j < st.enums.len() ==> (#[trigger] st.enums[i]).enum_name != (
        #[trigger] st.enums[j]).enum_name
}

/// What `after` has beyond `before` is what the names stand for in the project.
pub open spec fn adds_named(items: ItemTree, before: Collected, after: Collected) -> bool {
    &&& forall|i: int|
        before.classes.len() <= i < after.classes.len() ==> {
            let name = (#[trigger] after.classes[i]).class_name;
            &&& class_named(items.classes@, name) is Some
            &&& after.classes[i] == class_model(class_named(items.classes@, name)->0)
        }
    &&& forall|i: int|
        before.enums.len() <= i < after.enums.len() ==> {
            let name = (#[trigger] after.enums[i]).enum_name;
            &&& class_named(items.classes@, name) is None
            &&& enum_named(items.enums@, name) is Some
            &&& after.enums[i] == enum_model(enum_named(items.enums@, name)->0)
        }
}

/// `long` begins with what is in `short`.
pub open spec fn grown<T>(short: Seq<T>, long: Seq<T>) -> bool {
    short.len() <= long.len() && forall|i: int|
        0 <= i < short.len() ==> #[trigger] long[i] == short[i]
}

/// How a step goes from `st` to `after`: it covers every name in `named`, and
/// what it enters or collects anew satisfies `allowed`, with all that its
/// fields name covered.
spec fn step(
    items: ItemTree,
    st: Collected,
    after: Collected,
    named: spec_fn(Seq<char>) -> bool,
    allowed: spec_fn(Seq<char>) -> bool,
) -> bool {
    &&& tidy(after)
    &&& adds_named(items, st, after)
    &&& grown(st.classes, after.classes)
    &&& grown(st.enums, after.enums)
    &&& st.entered.len() <= after.entered.len()
    &&& forall|n: Seq<char>| #[trigger] st.entered.contains(n) ==> after.entered.contains(n)
    &&& forall|n: Seq<char>| #[trigger] has_enum(st.enums, n) ==> has_enum(after.enums, n)
    &&& forall|n: Seq<char>| #[trigger] named(n) ==> covered(items, n, after)
    &&& forall|c: Seq<char>, n: Seq<char>|
        after.entered.contains(c) && !st.entered.contains(c) && #[trigger] class_mentions(
            items,
            c,
            n,
        ) ==> covered(items, n, after)
    &&& forall|c: Seq<char>|
        #![trigger has_class(after.classes, c)]
        #![trigger after.entered.contains(c)]
        has_class(after.classes, c) <==> has_class(st.classes, c) || (after.entered.contains(c)
            && !st.entered.contains(c))
    &&& forall|c: Seq<char>|
        #[trigger] after.entered.contains(c) && !st.entered.contains(c) ==> allowed(c)
    &&& forall|n: Seq<char>|
        #[trigger] has_enum(after.enums, n) && !has_enum(st.enums, n) ==> allowed(n)
}

/// Two steps make one.
proof fn lemma_step_trans(
    items: ItemTree,
    a: Collected,
    b: Collected,
    c: Collected,
    first: spec_fn(Seq<char>) -> bool,
    second: spec_fn(Seq<char>) -> bool,
    named: spec_fn(Seq<char>) -> bool,
    allowed: spec_fn(Seq<char>) -> bool,
)
    requires
        step(items, a, b, first, allowed),
        step(items, b, c, second, allowed),
        forall|n: Seq<char>| #[trigger] named(n) ==> first(n) || second(n),
    ensures
        step(items, a, c, named, allowed),
{
    assert forall|n: Seq<char>| #[trigger] named(n) implies covered(items, n, c) by {
        if first(n) {
            assert(covered(items, n, b));
        }
    }
    assert forall|x: Seq<char>, n: Seq<char>|
        c.entered.contains(x) && !a.entered.contains(x) && #[trigger] class_mentions(
            items,
            x,
            n,
        ) implies covered(items, n, c) by {
        if b.entered.contains(x) {
            assert(covered(items, n, b));
        }
    }
    assert forall|x: Seq<char>| #[trigger] c.entered.contains(x) && !a.entered.contains(x) implies allowed(
        x,
    ) by {
        if b.entered.contains(x) {
            assert(allowed(x));
        }
    }
    assert forall|n: Seq<char>| #[trigger] has_enum(c.enums, n) && !has_enum(a.enums, n) implies allowed(
        n,
    ) by {
        if has_enum(b.enums, n) {
            assert(allowed(n));
        }
    }
    assert forall|x: Seq<char>|
        has_class(c.classes, x) <==> has_class(a.classes, x) || (#[trigger] c.entered.contains(x)
            && !a.entered.contains(x)) by {
        assert(has_class(b.classes, x) <==> has_class(a.classes, x) || (b.entered.contains(x)
            && !a.entered.contains(x)));
        assert(has_class(c.classes, x) <==> has_class(b.classes, x) || (c.entered.contains(x)
            && !b.entered.contains(x)));
        assert(a.entered.contains(x) ==> b.entered.contains(x));
        assert(b.entered.contains(x) ==> c.entered.contains(x));
    }
}

/// Doing nothing covers nothing.
proof fn lemma_step_none(
    items: ItemTree,
    st: Collected,
    named: spec_fn(Seq<char>) -> bool,
    allowed: spec_fn(Seq<char>) -> bool,
)
    requires
        tidy(st),
        forall|n: Seq<char>| #[trigger] named(n) ==> covered(items, n, st),
    ensures
        step(items, st, st, named, allowed),
{
}

/// `allowed` holds of what an allowed class names.
spec fn closed_under(items: ItemTree, allowed: spec_fn(Seq<char>) -> bool) -> bool {
    forall|c: Seq<char>, n: Seq<char>|
        allowed(c) && #[trigger] class_mentions(items, c, n) ==> allowed(n)
}

spec fn only(name: Seq<char>) -> spec_fn(Seq<char>) -> bool {
    |n: Seq<char>| n == name
}

spec fn named_in(ty: TypeExpr) -> spec_fn(Seq<char>) -> bool {
    |n: Seq<char>| mentions(ty, n)
}

spec fn named_in_all(types: Seq<TypeExpr>) -> spec_fn(Seq<char>) -> bool {
    |n: Seq<char>| some_mention(types, n)
}

spec fn named_in_fields(fields: Seq<Field>) -> spec_fn(Seq<char>) -> bool {
    |n: Seq<char>| fields_mention(fields, n)
}

proof fn lemma_name_step(
    name: Seq<char>,
    items: ItemTree,
    st: Collected,
    depth: nat,
    allowed: spec_fn(Seq<char>) -> bool,
)
    requires
        tidy(st),
        depth >= room(items, st),
        closed_under(items, allowed),
        allowed(name),
    ensures
        step(items, st, collect_name(name, items, st, depth), only(name), allowed),
    decreases depth, 0nat, items,
{
    let after = collect_name(name, items, st, depth);
    match class_named(items.classes@, name) {
        Some(class) => {
            lemma_class_named(items.classes@, name);
            if st.entered.contains(name) {
                lemma_step_none(items, st, only(name), allowed);
            } else {
                let entry = Collected { entered: st.entered.push(name), ..st };
                assert forall|x: Seq<char>| #[trigger] entry.entered.contains(x) <==> (
                st.entered.contains(x) || x == name) by {
                    if st.entered.contains(x) {
                        let i = choose|i: int| 0 <= i < st.entered.len() && st.entered[i] == x;
                        assert(entry.entered[i] == x);
                    }
                    if x == name {
                        assert(entry.entered[st.entered.len() as int] == x);
                    }
                    if entry.entered.contains(x) {
                        let i = choose|i: int|
                            0 <= i < entry.entered.len() && entry.entered[i] == x;
                        if i < st.entered.len() {
                            assert(st.entered[i] == x);
                        }
                    }
                }
                lemma_room_entered(items, st, name);
                assert(tidy(entry));
                let below = (depth - 1) as nat;
                assert forall|n: Seq<char>| #[trigger] named_in_fields(class.fields@)(n) implies allowed(
                    n,
                ) by {
                    assert(class_mentions(items, name, n));
                }
                lemma_fields_step(class.fields@, items, entry, below, allowed);
                let inner = collect_fields(class.fields@, items, entry, below);
                let model = class_model(class);
                assert(after == (Collected { classes: inner.classes.push(model), ..inner }));
                assert(!has_class(inner.classes, name)) by {
                    if has_class(st.classes, name) {
                        let i = choose|i: int|
                            0 <= i < st.classes.len() && (#[trigger] st.classes[i]).class_name
                                == name;
                        assert(st.entered.contains(st.classes[i].class_name));
                    }
                    assert(entry.entered.contains(name));
                    assert(!has_class(entry.classes, name));
                }
                assert forall|x: Seq<char>| #[trigger] has_class(after.classes, x) <==> (has_class(
                    inner.classes,
                    x,
                ) || x == name) by {
                    if has_class(inner.classes, x) {
                        let i = choose|i: int|
                            0 <= i < inner.classes.len() && (#[trigger] inner.classes[i]).class_name
                                == x;
                        assert(after.classes[i].class_name == x);
                    }
                    if x == name {
                        assert(after.classes[inner.classes.len() as int].class_name == x);
                    }
                    if has_class(after.classes, x) {
                        let i = choose|i: int|
                            0 <= i < after.classes.len() && (#[trigger] after.classes[i]).class_name
                                == x;
                        if i < inner.classes.len() {
                            assert(inner.classes[i].class_name == x);
                        }
                    }
                }
                assert(adds_named(items, st, after)) by {
                    assert forall|i: int| st.classes.len() <= i < after.classes.len() implies {
                        let n = (#[trigger] after.classes[i]).class_name;
                        &&& class_named(items.classes@, n) is Some
                        &&& after.classes[i] == class_model(class_named(items.classes@, n)->0)
                    } by {
                        if i < inner.classes.len() {
                            assert(after.classes[i] == inner.classes[i]);
                        }
                    }
                }
                assert(tidy(after)) by {
                    assert(entry.entered.contains(name));
                    assert forall|i: int| 0 <= i < after.classes.len() implies after.entered.contains(
                        (#[trigger] after.classes[i]).class_name,
                    ) by {
                        if i < inner.classes.len() {
                            assert(after.classes[i] == inner.classes[i]);
                        }
                    }
                    assert forall|i: int, j: int| 0 <= i < j < after.classes.len() implies (
                    #[trigger] after.classes[i]).class_name != (
                    #[trigger] after.classes[j]).class_name by {
                        assert(after.classes[i] == inner.classes[i]);
                        if j < inner.classes.len() {
                            assert(after.classes[j] == inner.classes[j]);
                        } else {
                            assert(inner.classes[i].class_name != name);
                        }
                    }
                }
                assert forall|n: Seq<char>| #[trigger] st.entered.contains(n) implies after.entered.contains(
                    n,
                ) by {
                    assert(entry.entered.contains(n));
                }
                assert(entry.entered.contains(name));
                assert(after.entered.contains(name));
                assert forall|c: Seq<char>, n: Seq<char>|
                    after.entered.contains(c) && !st.entered.contains(c)
                        && #[trigger] class_mentions(items, c, n) implies covered(
                    items,
                    n,
                    after,
                ) by {
                    if c == name {
                        assert(named_in_fields(class.fields@)(n));
                    }
                    assert(entry.entered.contains(c) <==> (st.entered.contains(c) || c == name));
                    assert(covered(items, n, inner));
                }
                assert forall|c: Seq<char>|
                    has_class(after.classes, c) <==> has_class(st.classes, c) || (
                    #[trigger] after.entered.contains(c) && !st.entered.contains(c)) by {
                    assert(entry.entered.contains(c) <==> (st.entered.contains(c) || c == name));
                    assert(has_class(inner.classes, c) <==> has_class(entry.classes, c) || (
                    inner.entered.contains(c) && !entry.entered.contains(c)));
                    assert(has_class(after.classes, c) <==> (has_class(inner.classes, c) || c
                        == name));
                }
                assert forall|c: Seq<char>| #[trigger] after.entered.contains(c)
                    && !st.entered.contains(c) implies allowed(c) by {
                    assert(entry.entered.contains(c) <==> (st.entered.contains(c) || c == name));
                    assert(inner.entered.contains(c));
                }
            }
        },
        None => {
            match enum_named(items.enums@, name) {
                Some(en) => {
                    lemma_enum_named(items.enums@, name);
                    if has_enum(st.enums, name) {
                        lemma_step_none(items, st, only(name), allowed);
                    } else {
                        let model = enum_model(en);
                        assert forall|x: Seq<char>| #[trigger] has_enum(after.enums, x) <==> (
                        has_enum(st.enums, x) || x == name) by {
                            if has_enum(st.enums, x) {
                                let i = choose|i: int|
                                    0 <= i < st.enums.len() && (#[trigger] st.enums[i]).enum_name
                                        == x;
                                assert(after.enums[i].enum_name == x);
                            }
                            if x == name {
                                assert(after.enums[st.enums.len() as int].enum_name == x);
                            }
                            if has_enum(after.enums, x) {
                                let i = choose|i: int|
                                    0 <= i < after.enums.len() && (
                                    #[trigger] after.enums[i]).enum_name == x;
                                if i < st.enums.len() {
                                    assert(st.enums[i].enum_name == x);
                                }
                            }
                        }
                        assert forall|i: int| st.enums.len() <= i < after.enums.len() implies {
                            let n = (#[trigger] after.enums[i]).enum_name;
                            &&& class_named(items.classes@, n) is None
                            &&& enum_named(items.enums@, n) is Some
                            &&& after.enums[i] == enum_model(enum_named(items.enums@, n)->0)
                        } by {
                            if i < st.enums.len() {
                                assert(after.enums[i] == st.enums[i]);
                            }
                        }
                        assert forall|i: int, j: int| 0 <= i < j < after.enums.len() implies (
                        #[trigger] after.enums[i]).enum_name != (
                        #[trigger] after.enums[j]).enum_name by {
                            assert(after.enums[i] == st.enums[i]);
                            if j < st.enums.len() {
                                assert(after.enums[j] == st.enums[j]);
                            } else {
                                assert(st.enums[i].enum_name != name);
                            }
                        }
                        assert(tidy(after));
                        assert(adds_named(items, st, after));
                        assert(has_enum(after.enums, name));
                    }
                },
                None => {
                    lemma_step_none(items, st, only(name), allowed);
                },
            }
        },
    }
}

proof fn lemma_type_step(
    ty: TypeExpr,
    items: ItemTree,
    st: Collected,
    depth: nat,
    allowed: spec_fn(Seq<char>) -> bool,
)
    requires
        tidy(st),
        depth >= room(items, st),
        closed_under(items, allowed),
        forall|n: Seq<char>| #[trigger] named_in(ty)(n) ==> allowed(n),
    ensures
        step(items, st, collect_type(ty, items, st, depth), named_in(ty), allowed),
    decreases depth, 1nat, ty,
{
    let after = collect_type(ty, items, st, depth);
    match ty {
        TypeExpr::Path { segments, generic_args } => {
            let nothing = |n: Seq<char>| false;
            assert forall|n: Seq<char>| #[trigger] named_in_all(generic_args@)(n) implies allowed(
                n,
            ) by {
                assert(named_in(ty)(n));
            }
            if segments@.len() == 1 {
                let name = segments@[0]@;
                assert(named_in(ty)(name));
                lemma_name_step(name, items, st, depth, allowed);
                let mid = collect_name(name, items, st, depth);
                lemma_room(items, st, mid);
                lemma_types_step(generic_args@, items, mid, depth, allowed);
                lemma_step_trans(
                    items,
                    st,
                    mid,
                    after,
                    only(name),
                    named_in_all(generic_args@),
                    named_in(ty),
                    allowed,
                );
            } else {
                lemma_types_step(generic_args@, items, st, depth, allowed);
                lemma_step_none(items, st, nothing, allowed);
                lemma_step_trans(
                    items,
                    st,
                    st,
                    after,
                    nothing,
                    named_in_all(generic_args@),
                    named_in(ty),
                    allowed,
                );
            }
        },
        TypeExpr::Optional { inner } => {
            assert forall|n: Seq<char>| #[trigger] named_in(*inner)(n) implies allowed(n) by {
                assert(named_in(ty)(n));
            }
            lemma_type_step(*inner, items, st, depth, allowed);
            assert(named_in(ty) =~= named_in(*inner));
        },
        TypeExpr::List { inner } => {
            assert forall|n: Seq<char>| #[trigger] named_in(*inner)(n) implies allowed(n) by {
                assert(named_in(ty)(n));
            }
            lemma_type_step(*inner, items, st, depth, allowed);
            assert(named_in(ty) =~= named_in(*inner));
        },
        TypeExpr::Mapping { key, value } => {
            assert forall|n: Seq<char>| #[trigger] named_in(*key)(n) implies allowed(n) by {
                assert(named_in(ty)(n));
            }
            assert forall|n: Seq<char>| #[trigger] named_in(*value)(n) implies allowed(n) by {
                assert(named_in(ty)(n));
            }
            lemma_type_step(*key, items, st, depth, allowed);
            let mid = collect_type(*key, items, st, depth);
            lemma_room(items, st, mid);
            lemma_type_step(*value, items, mid, depth, allowed);
            lemma_step_trans(
                items,
                st,
                mid,
                after,
                named_in(*key),
                named_in(*value),
                named_in(ty),
                allowed,
            );
        },
        TypeExpr::Union { variants } => {
            assert forall|n: Seq<char>| #[trigger] named_in_all(variants@)(n) implies allowed(n) by {
                assert(named_in(ty)(n));
            }
            lemma_types_step(variants@, items, st, depth, allowed);
            assert(named_in(ty) =~= named_in_all(variants@));
        },
        TypeExpr::Function { params, ret } => {
            assert forall|n: Seq<char>| #[trigger] named_in_all(params@)(n) implies allowed(n) by {
                assert(named_in(ty)(n));
            }
            assert forall|n: Seq<char>| #[trigger] named_in(*ret)(n) implies allowed(n) by {
                assert(named_in(ty)(n));
            }
            lemma_types_step(params@, items, st, depth, allowed);
            let mid = collect_types(params@, items, st, depth);
            lemma_room(items, st, mid);
            lemma_type_step(*ret, items, mid, depth, allowed);
            lemma_step_trans(
                items,
                st,
                mid,
                after,
                named_in_all(params@),
                named_in(*ret),
                named_in(ty),
                allowed,
            );
        },
        _ => {
            lemma_step_none(items, st, named_in(ty), allowed);
        },
    }
}

proof fn lemma_types_step(
    types: Seq<TypeExpr>,
    items: ItemTree,
    st: Collected,
    depth: nat,
    allowed: spec_fn(Seq<char>) -> bool,
)
    requires
        tidy(st),
        depth >= room(items, st),
        closed_under(items, allowed),
        forall|n: Seq<char>| #[trigger] named_in_all(types)(n) ==> allowed(n),
    ensures
        step(items, st, collect_types(types, items, st, depth), named_in_all(types), allowed),
    decreases depth, 1nat, types,
{
    if types.len() == 0 {
        lemma_step_none(items, st, named_in_all(types), allowed);
    } else {
        let front = types.drop_last();
        assert forall|n: Seq<char>| #[trigger] named_in_all(front)(n) implies allowed(n) by {
            assert(named_in_all(types)(n));
        }
        assert forall|n: Seq<char>| #[trigger] named_in(types.last())(n) implies allowed(n) by {
            assert(named_in_all(types)(n));
        }
        lemma_types_step(front, items, st, depth, allowed);
        let mid = collect_types(front, items, st, depth);
        lemma_room(items, st, mid);
        lemma_type_step(types.last(), items, mid, depth, allowed);
        lemma_step_trans(
            items,
            st,
            mid,
            collect_types(types, items, st, depth),
            named_in_all(front),
            named_in(types.last()),
            named_in_all(types),
            allowed,
        );
    }
}

proof fn lemma_fields_step(
    fields: Seq<Field>,
    items: ItemTree,
    st: Collected,
    depth: nat,
    allowed: spec_fn(Seq<char>) -> bool,
)
    requires
        tidy(st),
        depth >= room(items, st),
        closed_under(items, allowed),
        forall|n: Seq<char>| #[trigger] named_in_fields(fields)(n) ==> allowed(n),
    ensures
        step(items, st, collect_fields(fields, items, st, depth), named_in_fields(fields), allowed),
    decreases depth, 2nat, fields,
{
    if fields.len() == 0 {
        lemma_step_none(items, st, named_in_fields(fields), allowed);
    } else {
        let front = fields.drop_last();
        assert forall|n: Seq<char>| #[trigger] named_in_fields(front)(n) implies allowed(n) by {
            assert(named_in_fields(fields)(n));
        }
        lemma_fields_step(front, items, st, depth, allowed);
        let mid = collect_fields(front, items, st, depth);
        match fields.last().type_expr {
            Some(ty) => {
                assert forall|n: Seq<char>| #[trigger] named_in(ty)(n) implies allowed(n) by {
                    assert(named_in_fields(fields)(n));
                }
                lemma_room(items, st, mid);
                lemma_type_step(ty, items, mid, depth, allowed);
                lemma_step_trans(
                    items,
                    st,
                    mid,
                    collect_fields(fields, items, st, depth),
                    named_in_fields(front),
                    named_in(ty),
                    named_in_fields(fields),
                    allowed,
                );
            },
            None => {
                assert(named_in_fields(fields) =~= named_in_fields(front));
            },
        }
    }
}

// ---------------------------------------------------------------------------
// Laws
// ---------------------------------------------------------------------------

spec fn reaches(func: Function, items: ItemTree) -> spec_fn(Seq<char>) -> bool {
    |n: Seq<char>| reachable(func, items, n)
}

spec fn nothing_collected() -> Collected {
    Collected { classes: Seq::empty(), enums: Seq::empty(), entered: Seq::empty() }
}

/// The types that the collection starts from are those of the parameters.
proof fn lemma_given_mention(params: Seq<Option<TypeExpr>>, name: Seq<char>)
    ensures
        some_mention(given_types(params), name) <==> exists|i: int|
            0 <= i < params.len() && (#[trigger] params[i] matches Some(ty) && mentions(ty, name)),
    decreases params.len(),
{
    if params.len() > 0 {
        let front = params.drop_last();
        lemma_given_mention(front, name);
        match params.last() {
            Some(ty) => {
                let types = given_types(front).push(ty);
                assert(types.drop_last() =~= given_types(front));
                assert(types.last() == ty);
            },
            None => {},
        }
        if exists|i: int|
            0 <= i < front.len() && (#[trigger] front[i] matches Some(ty) && mentions(ty, name)) {
            let i = choose|i: int|
                0 <= i < front.len() && (#[trigger] front[i] matches Some(ty) && mentions(
                    ty,
                    name,
                ));
            assert(params[i] == front[i]);
        }
        if exists|i: int|
            0 <= i < params.len() && (#[trigger] params[i] matches Some(ty) && mentions(ty, name)) {
            let i = choose|i: int|
                0 <= i < params.len() && (#[trigger] params[i] matches Some(ty) && mentions(
                    ty,
                    name,
                ));
            if i < front.len() {
                assert(front[i] == params[i]);
            } else {
                assert(params[i] == params.last());
            }
        }
        assert(params[params.len() - 1] == params.last());
    }
}

/// The types that the collection starts from are those of the signature.
proof fn lemma_signature_mention(func: Function, name: Seq<char>)
    ensures
        some_mention(signature_types(func), name) <==> signature_mentions(func, name),
{
    lemma_given_mention(func.params@, name);
    match func.return_type {
        Some(ty) => {
            let types = given_types(func.params@).push(ty);
            assert(types.drop_last() =~= given_types(func.params@));
            assert(types.last() == ty);
        },
        None => {},
    }
}

/// The whole collection as one step.
proof fn lemma_referenced(func: Function, items: ItemTree)
    ensures
        step(
            items,
            nothing_collected(),
            referenced(func, items),
            named_in_all(signature_types(func)),
            reaches(func, items),
        ),
{
    let allowed = reaches(func, items);
    assert forall|c: Seq<char>, n: Seq<char>|
        allowed(c) && #[trigger] class_mentions(items, c, n) implies allowed(n) by {
        let steps = choose|steps: nat| reached_in(func, items, c, steps);
        assert(reached_in(func, items, n, (steps + 1) as nat));
    }
    assert forall|n: Seq<char>| #[trigger] named_in_all(signature_types(func))(n) implies allowed(
        n,
    ) by {
        lemma_signature_mention(func, n);
        assert(reached_in(func, items, n, 0));
    }
    lemma_room(items, nothing_collected(), nothing_collected());
    lemma_types_step(
        signature_types(func),
        items,
        nothing_collected(),
        items.classes@.len(),
        allowed,
    );
}

/// What the signature leads to is covered.
proof fn lemma_reached_covered(func: Function, items: ItemTree, name: Seq<char>, steps: nat)
    requires
        reached_in(func, items, name, steps),
    ensures
        covered(items, name, referenced(func, items)),
    decreases steps,
{
    lemma_referenced(func, items);
    if steps == 0 {
        lemma_signature_mention(func, name);
        assert(named_in_all(signature_types(func))(name));
    } else {
        let below = (steps - 1) as nat;
        let class = choose|class: Seq<char>|
            #![trigger class_mentions(items, class, name)]
            reached_in(func, items, class, below) && class_mentions(items, class, name);
        lemma_reached_covered(func, items, class, below);
        assert(!nothing_collected().entered.contains(class));
    }
}

/// Exactly the classes and enums that the function's signature leads to are
/// collected. A name that is both a class and an enum stands for the class.
pub proof fn law_referenced_is_reachable(func: Function, items: ItemTree, name: Seq<char>)
    ensures
        has_class(referenced(func, items).classes, name) <==> reachable(func, items, name)
            && class_named(items.classes@, name) is Some,
        has_enum(referenced(func, items).enums, name) <==> reachable(func, items, name)
            && class_named(items.classes@, name) is None && enum_named(items.enums@, name) is Some,
{
    let st = referenced(func, items);
    lemma_referenced(func, items);
    assert(!has_class(nothing_collected().classes, name));
    assert(!has_enum(nothing_collected().enums, name));
    assert(!nothing_collected().entered.contains(name));
    assert(has_class(st.classes, name) <==> st.entered.contains(name));
    if st.entered.contains(name) {
        assert(reaches(func, items)(name));
        let i = choose|i: int|
            0 <= i < st.classes.len() && (#[trigger] st.classes[i]).class_name == name;
        assert(class_named(items.classes@, st.classes[i].class_name) is Some);
    }
    if has_enum(st.enums, name) {
        assert(reaches(func, items)(name));
        let i = choose|i: int|
            0 <= i < st.enums.len() && (#[trigger] st.enums[i]).enum_name == name;
        assert(class_named(items.classes@, st.enums[i].enum_name) is None);
    }
    if reachable(func, items, name) {
        let steps = choose|steps: nat| reached_in(func, items, name, steps);
        lemma_reached_covered(func, items, name, steps);
    }
}

/// `part` stands directly in `ty`.
pub open spec fn stands_in(part: TypeExpr, ty: TypeExpr) -> bool {
    match ty {
        TypeExpr::Path { segments, generic_args } => generic_args@.contains(part),
        TypeExpr::Optional { inner } => *inner == part,
        TypeExpr::List { inner } => *inner == part,
        TypeExpr::Mapping { key, value } => *key == part || *value == part,
        TypeExpr::Union { variants } => variants@.contains(part),
        TypeExpr::Function { params, ret } => params@.contains(part) || *ret == part,
        _ => false,
    }
}

/// Some type of a list names `name`, as one of them does.
proof fn lemma_some_mention(types: Seq<TypeExpr>, name: Seq<char>)
    ensures
        some_mention(types, name) <==> exists|i: int|
            0 <= i < types.len() && mentions(#[trigger] types[i], name),
    decreases types.len(),
{
    if types.len() > 0 {
        let front = types.drop_last();
        lemma_some_mention(front, name);
        assert(types[types.len() - 1] == types.last());
        if some_mention(front, name) {
            let i = choose|i: int| 0 <= i < front.len() && mentions(#[trigger] front[i], name);
            assert(types[i] == front[i]);
        }
        if exists|i: int| 0 <= i < types.len() && mentions(#[trigger] types[i], name) {
            let i = choose|i: int| 0 <= i < types.len() && mentions(#[trigger] types[i], name);
            if i < front.len() {
                assert(front[i] == types[i]);
            }
        }
    }
}

/// What a type names is what its parts name, and the name of a path of one
/// segment; a path of more segments names nothing itself.
pub proof fn law_a_type_names_what_its_parts_name(ty: TypeExpr, name: Seq<char>)
    ensures
        mentions(ty, name) <==> (ty matches TypeExpr::Path { segments, .. } && segments@.len() == 1
            && segments@[0]@ == name) || exists|part: TypeExpr| #[trigger]
            stands_in(part, ty) && mentions(part, name),
{
    match ty {
        TypeExpr::Path { segments, generic_args } => {
            lemma_some_mention(generic_args@, name);
            lemma_parts(generic_args@, ty, name);
        },
        TypeExpr::Optional { inner } => {
            assert(stands_in(*inner, ty));
        },
        TypeExpr::List { inner } => {
            assert(stands_in(*inner, ty));
        },
        TypeExpr::Mapping { key, value } => {
            assert(stands_in(*key, ty));
            assert(stands_in(*value, ty));
        },
        TypeExpr::Union { variants } => {
            lemma_some_mention(variants@, name);
            lemma_parts(variants@, ty, name);
        },
        TypeExpr::Function { params, ret } => {
            lemma_some_mention(params@, name);
            lemma_parts(params@, ty, name);
            assert(stands_in(*ret, ty));
        },
        _ => {},
    }
}

/// What a class names is what the type of any of its fields names.
pub proof fn law_a_class_names_what_its_fields_name(fields: Seq<Field>, name: Seq<char>)
    ensures
        fields_mention(fields, name) <==> exists|i: int|
            0 <= i < fields.len() && ((#[trigger] fields[i]).type_expr matches Some(ty)
                && mentions(ty, name)),
    decreases fields.len(),
{
    if fields.len() > 0 {
        let front = fields.drop_last();
        law_a_class_names_what_its_fields_name(front, name);
        assert(fields[fields.len() - 1] == fields.last());
        if fields_mention(front, name) {
            let i = choose|i: int|
                0 <= i < front.len() && ((#[trigger] front[i]).type_expr matches Some(ty)
                    && mentions(ty, name));
            assert(fields[i] == front[i]);
        }
        if exists|i: int|
            0 <= i < fields.len() && ((#[trigger] fields[i]).type_expr matches Some(ty)
                && mentions(ty, name)) {
            let i = choose|i: int|
                0 <= i < fields.len() && ((#[trigger] fields[i]).type_expr matches Some(ty)
                    && mentions(ty, name));
            if i < front.len() {
                assert(front[i] == fields[i]);
            }
        }
    }
}

/// A list of parts has one that names `name`, or has none.
proof fn lemma_parts(types: Seq<TypeExpr>, ty: TypeExpr, name: Seq<char>)
    requires
        forall|part: TypeExpr| #[trigger] types.contains(part) ==> stands_in(part, ty),
    ensures
        some_mention(types, name) ==> exists|part: TypeExpr| #[trigger]
            stands_in(part, ty) && mentions(part, name),
        forall|part: TypeExpr| #[trigger]
            types.contains(part) && mentions(part, name) ==> some_mention(types, name),
{
    lemma_some_mention(types, name);
    if some_mention(types, name) {
        let i = choose|i: int| 0 <= i < types.len() && mentions(#[trigger] types[i], name);
        assert(types.contains(types[i]));
        assert(stands_in(types[i], ty));
    }
    assert forall|part: TypeExpr| #[trigger]
        types.contains(part) && mentions(part, name) implies some_mention(types, name) by {
        let i = choose|i: int| 0 <= i < types.len() && types[i] == part;
        assert(mentions(types[i], name));
    }
}

/// What a signature names is collected, whichever parameter names it, and so is
/// what the fields of a collected class name: as a class where there is one of
/// that name, else as an enum.
pub proof fn law_signature_and_fields_are_collected(
    func: Function,
    items: ItemTree,
    name: Seq<char>,
)
    requires
        signature_mentions(func, name) || exists|class: Seq<char>|
            has_class(referenced(func, items).classes, class) && #[trigger] class_mentions(
                items,
                class,
                name,
            ),
    ensures
        class_named(items.classes@, name) is Some ==> has_class(
            referenced(func, items).classes,
            name,
        ),
        class_named(items.classes@, name) is None && enum_named(items.enums@, name) is Some
            ==> has_enum(referenced(func, items).enums, name),
{
    if signature_mentions(func, name) {
        assert(reached_in(func, items, name, 0));
    } else {
        let class = choose|class: Seq<char>|
            has_class(referenced(func, items).classes, class) && #[trigger] class_mentions(
                items,
                class,
                name,
            );
        law_referenced_is_reachable(func, items, class);
        let steps = choose|steps: nat| reached_in(func, items, class, steps);
        assert(reached_in(func, items, name, (steps + 1) as nat));
    }
    assert(reachable(func, items, name));
    law_referenced_is_reachable(func, items, name);
}

/// Each class and each enum is collected once, as what its name stands for.
pub proof fn law_referenced_is_distinct(func: Function, items: ItemTree)
    ensures
        forall|i: int|
            0 <= i < referenced(func, items).classes.len() ==> class_named(
                items.classes@,
                (#[trigger] referenced(func, items).classes[i]).class_name,
            ) is Some && referenced(func, items).classes[i] == class_model(
                class_named(items.classes@, referenced(func, items).classes[i].class_name)->0,
            ),
        forall|i: int, j: int|
            0 <= i < j < referenced(func, items).classes.len() ==> (#[trigger] referenced(
                func,
                items,
            ).classes[i]).class_name != (#[trigger] referenced(func, items).classes[j]).class_name,
        forall|i: int|
            0 <= i < referenced(func, items).enums.len() ==> enum_named(
                items.enums@,
                (#[trigger] referenced(func, items).enums[i]).enum_name,
            ) is Some && referenced(func, items).enums[i] == enum_model(
                enum_named(items.enums@, referenced(func, items).enums[i].enum_name)->0,
            ),
        forall|i: int, j: int|
            0 <= i < j < referenced(func, items).enums.len() ==> (#[trigger] referenced(
                func,
                items,
            ).enums[i]).enum_name != (#[trigger] referenced(func, items).enums[j]).enum_name,
{
    lemma_referenced(func, items);
}

/// A name that is covered leads to nothing new.
proof fn lemma_covered_name(name: Seq<char>, items: ItemTree, st: Collected, depth: nat)
    requires
        covered(items, name, st),
    ensures
        collect_name(name, items, st, depth) == st,
{
}

/// A type expression whose names are all covered leads to nothing new.
proof fn lemma_covered_type(ty: TypeExpr, items: ItemTree, st: Collected, depth: nat)
    requires
        forall|n: Seq<char>| #[trigger] named_in(ty)(n) ==> covered(items, n, st),
    ensures
        collect_type(ty, items, st, depth) == st,
    decreases ty,
{
    match ty {
        TypeExpr::Path { segments, generic_args } => {
            if segments@.len() == 1 {
                assert(named_in(ty)(segments@[0]@));
                lemma_covered_name(segments@[0]@, items, st, depth);
            }
            assert forall|n: Seq<char>| #[trigger] named_in_all(generic_args@)(n) implies covered(
                items,
                n,
                st,
            ) by {
                assert(named_in(ty)(n));
            }
            lemma_covered_types(generic_args@, items, st, depth);
        },
        TypeExpr::Optional { inner } => {
            assert(named_in(ty) =~= named_in(*inner));
            lemma_covered_type(*inner, items, st, depth);
        },
        TypeExpr::List { inner } => {
            assert(named_in(ty) =~= named_in(*inner));
            lemma_covered_type(*inner, items, st, depth);
        },
        TypeExpr::Mapping { key, value } => {
            assert forall|n: Seq<char>| #[trigger] named_in(*key)(n) implies covered(
                items,
                n,
                st,
            ) by {
                assert(named_in(ty)(n));
            }
            assert forall|n: Seq<char>| #[trigger] named_in(*value)(n) implies covered(
                items,
                n,
                st,
            ) by {
                assert(named_in(ty)(n));
            }
            lemma_covered_type(*key, items, st, depth);
            lemma_covered_type(*value, items, st, depth);
        },
        TypeExpr::Union { variants } => {
            assert(named_in(ty) =~= named_in_all(variants@));
            lemma_covered_types(variants@, items, st, depth);
        },
        TypeExpr::Function { params, ret } => {
            assert forall|n: Seq<char>| #[trigger] named_in_all(params@)(n) implies covered(
                items,
                n,
                st,
            ) by {
                assert(named_in(ty)(n));
            }
            assert forall|n: Seq<char>| #[trigger] named_in(*ret)(n) implies covered(
                items,
                n,
                st,
            ) by {
                assert(named_in(ty)(n));
            }
            lemma_covered_types(params@, items, st, depth);
            lemma_covered_type(*ret, items, st, depth);
        },
        _ => {},
    }
}

/// Type expressions whose names are all covered lead to nothing new.
proof fn lemma_covered_types(types: Seq<TypeExpr>, items: ItemTree, st: Collected, depth: nat)
    requires
        forall|n: Seq<char>| #[trigger] named_in_all(types)(n) ==> covered(items, n, st),
    ensures
        collect_types(types, items, st, depth) == st,
    decreases types,
{
    if types.len() > 0 {
        assert forall|n: Seq<char>| #[trigger] named_in_all(types.drop_last())(n) implies covered(
            items,
            n,
            st,
        ) by {
            assert(named_in_all(types)(n));
        }
        assert forall|n: Seq<char>| #[trigger] named_in(types.last())(n) implies covered(
            items,
            n,
            st,
        ) by {
            assert(named_in_all(types)(n));
        }
        lemma_covered_types(types.drop_last(), items, st, depth);
        lemma_covered_type(types.last(), items, st, depth);
    }
}

/// The entered names are those of the collected classes.
pub open spec fn entered_is_collected(st: Collected) -> bool {
    forall|name: Seq<char>| #[trigger]
        st.entered.contains(name) <==> has_class(st.classes, name)
}

/// Collecting from a type adds to what is there and repeats nothing: from any
/// state in which no name stands twice and the entered names are those of the
/// collected classes, what was collected stays in front, what is added is a
/// class or an enum of the project under its own name, still no name stands
/// twice, and collecting from the same type again changes nothing. `depth` is
/// enough for every class that is left, and `again` is any depth.
pub proof fn law_collecting_again_changes_nothing(
    ty: TypeExpr,
    items: ItemTree,
    st: Collected,
    depth: nat,
    again: nat,
)
    requires
        distinct_names(st),
        entered_is_collected(st),
        depth >= room(items, st),
    ensures
        ({
            let after = collect_type(ty, items, st, depth);
            &&& grown(st.classes, after.classes)
            &&& grown(st.enums, after.enums)
            &&& adds_named(items, st, after)
            &&& distinct_names(after)
            &&& entered_is_collected(after)
            &&& collect_type(ty, items, after, again) == after
        }),
{
    let anything = |n: Seq<char>| true;
    assert forall|i: int| 0 <= i < st.classes.len() implies st.entered.contains(
        (#[trigger] st.classes[i]).class_name,
    ) by {
        assert(has_class(st.classes, st.classes[i].class_name));
    }
    lemma_type_step(ty, items, st, depth, anything);
    let after = collect_type(ty, items, st, depth);
    assert forall|name: Seq<char>| #[trigger]
        after.entered.contains(name) <==> has_class(after.classes, name) by {
        assert(st.entered.contains(name) <==> has_class(st.classes, name));
    }
    lemma_covered_type(ty, items, after, again);
}

/// No value of an enum is described twice.
pub proof fn law_descriptions_are_distinct(variants: Seq<Variant>)
    ensures
        distinct_keys(variant_descriptions(variants)),
    decreases variants.len(),
{
    if variants.len() > 0 {
        law_descriptions_are_distinct(variants.drop_last());
        match attribute_value(variants.last().attributes@, "description"@) {
            Some(description) => {
                lemma_put_distinct(
                    variant_descriptions(variants.drop_last()),
                    variants.last().name@,
                    description,
                );
            },
            None => {},
        }
    }
}

// ---------------------------------------------------------------------------
// What is told of a declaration
// ---------------------------------------------------------------------------

/// The first attribute of that name stands at `i`.
pub open spec fn first_attribute(attrs: Seq<Attribute>, name: Seq<char>, i: int) -> bool {
    &&& 0 <= i < attrs.len()
    &&& attrs[i].name@ == name
    &&& forall|j: int| 0 <= j < i ==> (#[trigger] attrs[j]).name@ != name
}

/// An attribute's value is that of the first attribute of its name: its first
/// argument, where that is a string literal. Without such an attribute there is
/// none.
pub proof fn law_the_first_attribute_counts(attrs: Seq<Attribute>, name: Seq<char>, i: int)
    ensures
        first_attribute(attrs, name, i) ==> attribute_value(attrs, name) == if attrs[i].args@.len()
            > 0 {
            literal_value(attrs[i].args@[0]@)
        } else {
            None
        },
        (forall|j: int| 0 <= j < attrs.len() ==> (#[trigger] attrs[j]).name@ != name)
            ==> attribute_value(attrs, name) is None,
{
    let p = attribute_named(attrs, name);
    if first_attribute(attrs, name, i) {
        assert(p(i));
        assert forall|j: int| 0 <= j < i implies !#[trigger] p(j) by {
            assert(attrs[j].name@ != name);
        }
        lemma_seek_is(p, 0, attrs.len() as int, i);
    }
    if forall|j: int| 0 <= j < attrs.len() ==> (#[trigger] attrs[j]).name@ != name {
        assert forall|j: int| 0 <= j < attrs.len() implies !#[trigger] p(j) by {
            assert(attrs[j].name@ != name);
        }
        lemma_seek_is(p, 0, attrs.len() as int, attrs.len() as int);
    }
}

/// A class is told with its name, its description and every field in order,
/// each with its name, its type, its description and its alias.
pub proof fn law_every_field_is_told(class: Class, i: int)
    ensures
        class_model(class).class_name == class.name@,
        class_model(class).description == attribute_value(class.attributes@, "description"@),
        class_model(class).fields.len() == class.fields@.len(),
        0 <= i < class.fields@.len() ==> {
            let field = class.fields@[i];
            let told = class_model(class).fields[i];
            &&& told.field_name == field.name@
            &&& told.field_type == match field.type_expr {
                Some(ty) => type_text(ty),
                None => "unknown"@,
            }
            &&& told.description == attribute_value(field.attributes@, "description"@)
            &&& told.alias == attribute_value(field.attributes@, "alias"@)
        },
{
}

/// An enum is told with its name and every value in order; the description of a
/// value is that of the last variant of its name that has one, and a value
/// without one is not described.
pub proof fn law_every_value_is_told(en: Enum, i: int, name: Seq<char>)
    ensures
        enum_model(en).enum_name == en.name@,
        enum_model(en).values.len() == en.variants@.len(),
        0 <= i < en.variants@.len() ==> enum_model(en).values[i] == en.variants@[i].name@,
        0 <= i < en.variants@.len() && (attribute_value(
            en.variants@[i].attributes@,
            "description"@,
        ) is Some) && (forall|j: int|
            i < j < en.variants@.len() ==> (#[trigger] en.variants@[j]).name@
                != en.variants@[i].name@ || attribute_value(
                en.variants@[j].attributes@,
                "description"@,
            ) is None) ==> lookup(enum_model(en).value_descriptions, en.variants@[i].name@)
            == attribute_value(en.variants@[i].attributes@, "description"@),
        (forall|j: int|
            0 <= j < en.variants@.len() ==> (#[trigger] en.variants@[j]).name@ != name
                || attribute_value(en.variants@[j].attributes@, "description"@) is None) ==> lookup(
            enum_model(en).value_descriptions,
            name,
        ) is None,
{
    lemma_described_value(en.variants@, i);
    lemma_undescribed_value(en.variants@, name);
}

proof fn lemma_described_value(variants: Seq<Variant>, i: int)
    ensures
        0 <= i < variants.len() && (attribute_value(
            variants[i].attributes@,
            "description"@,
        ) is Some) && (forall|j: int|
            i < j < variants.len() ==> (#[trigger] variants[j]).name@ != variants[i].name@
                || attribute_value(variants[j].attributes@, "description"@) is None) ==> lookup(
            variant_descriptions(variants),
            variants[i].name@,
        ) == attribute_value(variants[i].attributes@, "description"@),
    decreases variants.len(),
{
    if 0 <= i < variants.len() && (attribute_value(
        variants[i].attributes@,
        "description"@,
    ) is Some) && (forall|j: int|
        i < j < variants.len() ==> (#[trigger] variants[j]).name@ != variants[i].name@
            || attribute_value(variants[j].attributes@, "description"@) is None) {
        let front = variants.drop_last();
        let last = variants.last();
        let before = variant_descriptions(front);
        if i < front.len() {
            assert(front[i] == variants[i]);
            assert forall|j: int| i < j < front.len() implies (#[trigger] front[j]).name@
                != front[i].name@ || attribute_value(front[j].attributes@, "description"@) is None by {
                assert(front[j] == variants[j]);
            }
            lemma_described_value(front, i);
            assert(variants[variants.len() - 1] == last);
        }
        match attribute_value(last.attributes@, "description"@) {
            Some(description) => {
                lemma_put_lookup(before, last.name@, description, variants[i].name@);
            },
            None => {},
        }
    }
}

proof fn lemma_undescribed_value(variants: Seq<Variant>, name: Seq<char>)
    ensures
        (forall|j: int|
            0 <= j < variants.len() ==> (#[trigger] variants[j]).name@ != name || attribute_value(
                variants[j].attributes@,
                "description"@,
            ) is None) ==> lookup(variant_descriptions(variants), name) is None,
    decreases variants.len(),
{
    if forall|j: int|
        0 <= j < variants.len() ==> (#[trigger] variants[j]).name@ != name || attribute_value(
            variants[j].attributes@,
            "description"@,
        ) is None {
        if variants.len() > 0 {
            let front = variants.drop_last();
            let last = variants.last();
            assert forall|j: int| 0 <= j < front.len() implies (#[trigger] front[j]).name@ != name
                || attribute_value(front[j].attributes@, "description"@) is None by {
                assert(front[j] == variants[j]);
            }
            lemma_undescribed_value(front, name);
            assert(variants[variants.len() - 1] == last);
            match attribute_value(last.attributes@, "description"@) {
                Some(description) => {
                    lemma_put_lookup(
                        variant_descriptions(front),
                        last.name@,
                        description,
                        name,
                    );
                },
                None => {},
            }
        } else {
            lemma_key_position(variant_descriptions(variants), name);
        }
    }
}

/// Several types are written one by one.
pub proof fn law_every_type_is_written(types: Seq<TypeExpr>)
    ensures
        type_texts(types) == types.map_values(|ty: TypeExpr| type_text(ty)),
    decreases types.len(),
{
    let f = |ty: TypeExpr| type_text(ty);
    if types.len() > 0 {
        law_every_type_is_written(types.drop_last());
        assert(types.map_values(f) =~= types.drop_last().map_values(f).push(type_text(types.last())));
    } else {
        assert(types.map_values(f) =~= Seq::<Seq<char>>::empty());
    }
}

/// How a composite type is written, out of how its parts are.
pub proof fn law_types_are_written_by_their_parts(
    inner: Box<TypeExpr>,
    other: Box<TypeExpr>,
    segments: Vec<String>,
    types: Vec<TypeExpr>,
)
    ensures
        type_text(TypeExpr::Optional { inner }) == type_text(*inner) + "?"@,
        type_text(TypeExpr::List { inner }) == type_text(*inner) + "[]"@,
        type_text(TypeExpr::Mapping { key: inner, value: other }) == "map<"@ + type_text(*inner)
            + ", "@ + type_text(*other) + ">"@,
        type_text(TypeExpr::Union { variants: types }) == join(
            types@.map_values(|ty: TypeExpr| type_text(ty)),
            " | "@,
        ),
        type_text(TypeExpr::Path { segments, generic_args: types }) == if types@.len() == 0 {
            join(segments.deep_view(), "."@)
        } else {
            join(segments.deep_view(), "."@) + "<"@ + join(
                types@.map_values(|ty: TypeExpr| type_text(ty)),
                ", "@,
            ) + ">"@
        },
{
    law_every_type_is_written(types@);
}

/// How a character is written in a string literal.
pub open spec fn literal_char(c: char) -> Seq<char> {
    if c == '"' {
        seq!['\\', '"']
    } else if c == '\\' {
        seq!['\\', '\\']
    } else if c == '\n' {
        seq!['\\', 'n']
    } else {
        seq![c]
    }
}

/// A text written as a string literal, without the quotes.
pub open spec fn literal_text(text: Seq<char>) -> Seq<char>
    decreases text.len(),
{
    if text.len() == 0 {
        Seq::empty()
    } else {
        literal_char(text[0]) + literal_text(text.skip(1))
    }
}

/// A string literal reads back: a text with its quotes, backslashes and line
/// breaks escaped, between quotes, has the text as its value.
pub proof fn law_string_literals_read_back(text: Seq<char>)
    ensures
        literal_value(seq!['"'] + literal_text(text) + seq!['"']) == Some(text),
{
    let raw = seq!['"'] + literal_text(text) + seq!['"'];
    assert(raw.subrange(1, raw.len() - 1) =~= literal_text(text));
    assert(raw.last() == '"');
    lemma_unescaped(text);
}

proof fn lemma_unescaped(text: Seq<char>)
    ensures
        unescaped(literal_text(text)) == text,
    decreases text.len(),
{
    let s = literal_text(text);
    if text.len() > 0 {
        let rest = text.skip(1);
        lemma_unescaped(rest);
        let c = text[0];
        if c == '"' || c == '\\' || c == '\n' {
            assert(s[0] == '\\');
            assert(s.skip(2) =~= literal_text(rest));
        } else {
            assert(s[0] == c);
            assert(s.skip(1) =~= literal_text(rest));
        }
        assert(unescaped(s) =~= seq![c] + rest);
        assert(seq![c] + rest =~= text);
    } else {
        assert(unescaped(s) =~= text);
    }
}

/// The function that is extracted is the last of its name, with its own prompt.
pub proof fn law_the_last_function_is_extracted(items: ItemTree, name: Seq<char>, i: int)
    requires
        0 <= i < items.functions@.len(),
        items.functions@[i].name@ == name,
        forall|j: int| i < j < items.functions@.len() ==> (#[trigger] items.functions@[j]).name@
            != name,
    ensures
        function_named(items.functions@, name) == Some(items.functions@[i]),
        extracted_function(items, name).function_name == name,
        extracted_function(items, name).prompt_text == prompt_of(items.functions@[i]),
        extracted_function(items, name).classes == referenced(items.functions@[i], items).classes,
        extracted_function(items, name).enums == referenced(items.functions@[i], items).enums,
{
    lemma_function_named(items.functions@, name, i);
}

proof fn lemma_function_named(functions: Seq<Function>, name: Seq<char>, i: int)
    requires
        0 <= i < functions.len(),
        functions[i].name@ == name,
        forall|j: int| i < j < functions.len() ==> (#[trigger] functions[j]).name@ != name,
    ensures
        function_named(functions, name) == Some(functions[i]),
    decreases functions.len(),
{
    if i < functions.len() - 1 {
        let front = functions.drop_last();
        assert(functions[functions.len() - 1].name@ != name);
        assert forall|j: int| i < j < front.len() implies (#[trigger] front[j]).name@ != name by {
            assert(front[j] == functions[j]);
        }
        lemma_function_named(front, name, i);
    }
}

/// No function is extracted under a name that no function has.
pub proof fn law_unknown_functions_are_not_found(items: ItemTree, name: Seq<char>)
    ensures
        function_named(items.functions@, name) is None <==> forall|i: int|
            0 <= i < items.functions@.len() ==> (#[trigger] items.functions@[i]).name@ != name,
{
    lemma_function_unknown(items.functions@, name);
}

proof fn lemma_function_unknown(functions: Seq<Function>, name: Seq<char>)
    ensures
        function_named(functions, name) is None <==> forall|i: int|
            0 <= i < functions.len() ==> (#[trigger] functions[i]).name@ != name,
    decreases functions.len(),
{
    if functions.len() > 0 {
        let front = functions.drop_last();
        lemma_function_unknown(front, name);
        assert(functions[functions.len() - 1] == functions.last());
        assert forall|i: int| 0 <= i < front.len() implies #[trigger] front[i] == functions[i] by {}
        if function_named(functions, name) is None {
            assert forall|i: int| 0 <= i < functions.len() implies (
            #[trigger] functions[i]).name@ != name by {
                if i < front.len() {
                    assert(front[i].name@ != name);
                }
            }
        } else if functions.last().name@ != name {
            let i = choose|i: int| 0 <= i < front.len() && (#[trigger] front[i]).name@ == name;
            assert(functions[i].name@ == name);
        }
    }
}

/// A class that is collected for the first time stands behind all that its
/// fields lead to, and in front of it stands what was collected before.
pub proof fn law_a_class_stands_behind_its_parts(
    name: Seq<char>,
    items: ItemTree,
    before: Collected,
    depth: nat,
    class: Class,
)
    requires
        class_named(items.classes@, name) == Some(class),
        !before.entered.contains(name),
        depth > 0,
    ensures
        collect_name(name, items, before, depth).classes.len() > 0,
        collect_name(name, items, before, depth).classes.last().class_name == class.name@,
        collect_name(name, items, before, depth).classes.drop_last() == collect_fields(
            class.fields@,
            items,
            Collected { entered: before.entered.push(name), ..before },
            (depth - 1) as nat,
        ).classes,
{
    let inner = collect_fields(
        class.fields@,
        items,
        Collected { entered: before.entered.push(name), ..before },
        (depth - 1) as nat,
    );
    assert(inner.classes.push(class_model(class)).drop_last() =~= inner.classes);
}

/// A string literal needs its two quotes, and an escape that is not known stands
/// for itself.
pub proof fn law_only_quoted_texts_are_literals(raw: Seq<char>, c: char, rest: Seq<char>)
    ensures
        literal_value(raw) is Some <==> raw.len() >= 2 && raw[0] == '"' && raw.last() == '"',
        c != '"' && c != '\\' && c != 'n' ==> unescaped(seq!['\\', c] + rest) == seq!['\\', c]
            + unescaped(rest),
{
    let s = seq!['\\', c] + rest;
    assert(s[0] == '\\' && s[1] == c);
    assert(s.skip(2) =~= rest);
}

} // verus!
