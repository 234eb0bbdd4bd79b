//! JSON Schemas that stand on their own: without references, without
//! definitions, and without `true` or `false` in place of a schema.
//!
//! Some clients turn a tool's input schema into a grammar and refuse all tools
//! if one schema holds any of these. A recursive type can not be written out in
//! full, so a reference back to a definition that is being written out becomes a
//! schema that says the type and nothing else.
use std::sync::Arc;

use vstd::prelude::*;
use vstd::string::*;

use crate::json::{list_view, Json, JsonObject, JsonView};
use crate::schema_laws::{closed_object, standalone_schema_is_closed};
use crate::text::{chars_of, text_eq, views};

verus! {

/// The members of a schema.
pub type SchemaView = Map<Seq<char>, JsonView>;

/// What the value of a keyword is.
#[derive(Clone, Copy, Debug, PartialEq, Eq, Structural)]
pub enum Keyword {
    /// A schema.
    Schema,
    /// An object whose values are schemas.
    SchemaMap,
    /// An array of schemas.
    SchemaList,
    /// A schema if it is an object. `true` and `false` are the usual way to allow
    /// or forbid other members, and stay.
    Extra,
    /// Data.
    Data,
}

/// What the value of the keyword `name` is.
pub open spec fn keyword(name: Seq<char>) -> Keyword {
    if name == "items"@ || name == "unevaluatedItems"@ || name == "not"@ || name == "if"@ || name
        == "then"@ || name == "else"@ || name == "contains"@ || name == "propertyNames"@ {
        Keyword::Schema
    } else if name == "properties"@ || name == "patternProperties"@ || name
        == "dependentSchemas"@ {
        Keyword::SchemaMap
    } else if name == "prefixItems"@ || name == "anyOf"@ || name == "oneOf"@ || name == "allOf"@ {
        Keyword::SchemaList
    } else if name == "additionalProperties"@ || name == "unevaluatedProperties"@ {
        Keyword::Extra
    } else {
        Keyword::Data
    }
}

/// The name under which the whole schema is looked up.
pub open spec fn root_name() -> Seq<char> {
    seq!['#']
}

/// The part of `s` behind its last `'/'`.
pub open spec fn last_segment(s: Seq<char>) -> Seq<char>
    decreases s.len(),
{
    if s.len() == 0 || s.last() == '/' {
        seq![]
    } else {
        last_segment(s.drop_last()).push(s.last())
    }
}

/// `s` with `~1` read as `/` and `~0` as `~`.
pub open spec fn unescaped(s: Seq<char>) -> Seq<char>
    decreases s.len(),
{
    if s.len() == 0 {
        seq![]
    } else if s.len() >= 2 && s[0] == '~' && s[1] == '1' {
        seq!['/'] + unescaped(s.skip(2))
    } else if s.len() >= 2 && s[0] == '~' && s[1] == '0' {
        seq!['~'] + unescaped(s.skip(2))
    } else {
        seq![s[0]] + unescaped(s.skip(1))
    }
}

/// The name of the definition that `reference` stands for: the last segment of a
/// JSON Pointer. `"#"` stands for the whole schema.
pub open spec fn target_name(reference: Seq<char>) -> Seq<char> {
    unescaped(last_segment(reference))
}

/// Whether the schema `o` is a reference.
pub open spec fn is_reference(o: SchemaView) -> bool {
    o.contains_key("$ref"@) && o["$ref"@] is Text
}

/// The name of the definition that the schema `o` refers to.
pub open spec fn reference_name(o: SchemaView) -> Seq<char> {
    target_name(o["$ref"@]->Text_0)
}

/// What is left of a definition in a reference from inside of it: its type.
pub open spec fn type_only(defs: SchemaView, name: Seq<char>) -> SchemaView {
    if defs.contains_key(name) && defs[name] is Object && defs[name]->Object_0.contains_key(
        "type"@,
    ) {
        Map::empty().insert("type"@, defs[name]->Object_0["type"@])
    } else {
        Map::empty()
    }
}

/// How many definitions are not being written out.
pub open spec fn unexpanded(defs: SchemaView, expanding: Set<Seq<char>>) -> nat {
    defs.dom().difference(expanding).len()
}

/// A schema that allows everything, or nothing.
pub open spec fn boolean_schema(allow: bool) -> JsonView {
    if allow {
        JsonView::Object(Map::empty())
    } else {
        JsonView::Object(Map::empty().insert("not"@, JsonView::Object(Map::empty())))
    }
}

/// `v`, which stands where a schema is expected, written out. What is neither an
/// object nor a boolean is no schema and stays.
pub open spec fn expanded(v: JsonView, defs: SchemaView, expanding: Set<Seq<char>>) -> JsonView
    decreases unexpanded(defs, expanding), v, 3nat,
    when defs.dom().finite()
{
    match v {
        JsonView::Bool(allow) => boolean_schema(allow),
        JsonView::Object(o) => JsonView::Object(expanded_object(o, defs, expanding)),
        _ => v,
    }
}

/// The schema `o` written out, if the definitions `defs` are known and those in
/// `expanding` are being written out.
///
/// A reference becomes the definition that it refers to, written out, with the
/// other members of the reference over it. A reference to a definition that is
/// being written out becomes its type alone, and one to no definition becomes a
/// schema that allows everything.
pub open spec fn expanded_object(
    o: SchemaView,
    defs: SchemaView,
    expanding: Set<Seq<char>>,
) -> SchemaView
    decreases unexpanded(defs, expanding), JsonView::Object(o), 2nat,
    when defs.dom().finite()
{
    if is_reference(o) {
        let name = reference_name(o);
        let target = if expanding.contains(name) {
            type_only(defs, name)
        } else if defs.contains_key(name) && defs[name] is Object {
            proof {
                defs.dom().lemma_set_insert_diff_decreases(expanding, name);
            }
            expanded_object(defs[name]->Object_0, defs, expanding.insert(name))
        } else {
            Map::empty()
        };
        target.union_prefer_right(walked(o, defs, expanding))
    } else {
        walked(o, defs, expanding)
    }
}

/// The members of the schema `o`, with the schemas in them written out. The
/// reference is left out if `o` is one.
pub open spec fn walked(o: SchemaView, defs: SchemaView, expanding: Set<Seq<char>>) -> SchemaView
    decreases unexpanded(defs, expanding), JsonView::Object(o), 1nat,
    when defs.dom().finite()
{
    proof {
        let v = JsonView::Object(o);
        assert forall|k: Seq<char>| o.contains_key(k) implies #[trigger] decreases_to!(v => o[k]) by {
            assert(decreases_to!(v => v->Object_0[k]));
        }
    }
    Map::new(
        |k: Seq<char>| o.contains_key(k) && !(is_reference(o) && k == "$ref"@),
        |k: Seq<char>|
            if o.contains_key(k) {
                walked_member(k, o[k], defs, expanding)
            } else {
                JsonView::Null
            },
    )
}

/// The value `v` of the keyword `k`, with the schemas in it written out.
pub open spec fn walked_member(
    k: Seq<char>,
    v: JsonView,
    defs: SchemaView,
    expanding: Set<Seq<char>>,
) -> JsonView
    decreases unexpanded(defs, expanding), v, 4nat,
    when defs.dom().finite()
{
    match (keyword(k), v) {
        (Keyword::Schema, _) => expanded(v, defs, expanding),
        (Keyword::SchemaMap, JsonView::Object(m)) => JsonView::Object(
            expanded_map(m, defs, expanding),
        ),
        (Keyword::SchemaList, JsonView::Array(a)) => JsonView::Array(
            expanded_list(a, defs, expanding),
        ),
        (Keyword::Extra, JsonView::Object(_)) => expanded(v, defs, expanding),
        _ => v,
    }
}

/// The schemas that are the values of `m`, written out.
pub open spec fn expanded_map(
    m: SchemaView,
    defs: SchemaView,
    expanding: Set<Seq<char>>,
) -> SchemaView
    decreases unexpanded(defs, expanding), JsonView::Object(m), 3nat,
    when defs.dom().finite()
{
    proof {
        let v = JsonView::Object(m);
        assert forall|k: Seq<char>| m.contains_key(k) implies #[trigger] decreases_to!(v => m[k]) by {
            assert(decreases_to!(v => v->Object_0[k]));
        }
    }
    Map::new(
        |k: Seq<char>| m.contains_key(k),
        |k: Seq<char>|
            if m.contains_key(k) {
                expanded(m[k], defs, expanding)
            } else {
                JsonView::Null
            },
    )
}

/// The schemas in `a`, written out.
pub open spec fn expanded_list(
    a: Seq<JsonView>,
    defs: SchemaView,
    expanding: Set<Seq<char>>,
) -> Seq<JsonView>
    decreases unexpanded(defs, expanding), JsonView::Array(a), 3nat,
    when defs.dom().finite()
{
    proof {
        let v = JsonView::Array(a);
        assert forall|i: int| 0 <= i < a.len() implies #[trigger] decreases_to!(v => a[i]) by {
            assert(decreases_to!(v => v->Array_0));
            assert(decreases_to!(v->Array_0 => v->Array_0[i]));
        }
    }
    Seq::new(
        a.len(),
        |i: int|
            if 0 <= i < a.len() {
                expanded(a[i], defs, expanding)
            } else {
                JsonView::Null
            },
    )
}

/// The members of `o[k]`, if that is an object.
pub open spec fn members_at(o: SchemaView, k: Seq<char>) -> SchemaView {
    if o.contains_key(k) && o[k] is Object {
        o[k]->Object_0
    } else {
        Map::empty()
    }
}

/// The schema `o` without its definitions.
pub open spec fn without_defs(o: SchemaView) -> SchemaView {
    o.remove("$defs"@).remove("definitions"@)
}

/// The definitions of the schema `o`, and `o` itself without them.
pub open spec fn defs_of(o: SchemaView) -> SchemaView {
    members_at(o, "$defs"@).union_prefer_right(members_at(o, "definitions"@)).insert(
        root_name(),
        JsonView::Object(without_defs(o)),
    )
}

/// The schema `o` on its own: without its definitions, with all references
/// written out.
pub open spec fn standalone(o: SchemaView) -> SchemaView {
    expanded_object(without_defs(o), defs_of(o), Set::empty().insert(root_name()))
}

/// Whether writing `v` out, which stands where a schema is expected, meets no
/// reference to something that is not defined.
pub open spec fn resolves(v: JsonView, defs: SchemaView, expanding: Set<Seq<char>>) -> bool
    decreases unexpanded(defs, expanding), v, 3nat,
    when defs.dom().finite()
{
    v matches JsonView::Object(o) ==> resolves_object(o, defs, expanding)
}

/// Whether writing the schema `o` out meets no reference to something that is not
/// defined: if `o` is a reference, there is a definition for it, which is being
/// written out or resolves too, and so do the schemas in its members.
pub open spec fn resolves_object(
    o: SchemaView,
    defs: SchemaView,
    expanding: Set<Seq<char>>,
) -> bool
    decreases unexpanded(defs, expanding), JsonView::Object(o), 2nat,
    when defs.dom().finite()
{
    let name = reference_name(o);
    &&& is_reference(o) && !expanding.contains(name) ==> {
        &&& defs.contains_key(name)
        &&& defs[name] is Object
        &&& {
            proof {
                defs.dom().lemma_set_insert_diff_decreases(expanding, name);
            }
            resolves_object(defs[name]->Object_0, defs, expanding.insert(name))
        }
    }
    &&& {
        proof {
            let v = JsonView::Object(o);
            assert forall|k: Seq<char>| o.contains_key(k) implies #[trigger] decreases_to!(
                v => o[k]) by {
                assert(decreases_to!(v => v->Object_0[k]));
            }
        }
        forall|k: Seq<char>| #[trigger]
            o.contains_key(k) ==> resolves_member(k, o[k], defs, expanding)
    }
}

/// Whether the schemas in the value `v` of the keyword `k` resolve.
pub open spec fn resolves_member(
    k: Seq<char>,
    v: JsonView,
    defs: SchemaView,
    expanding: Set<Seq<char>>,
) -> bool
    decreases unexpanded(defs, expanding), v, 4nat,
    when defs.dom().finite()
{
    match (keyword(k), v) {
        (Keyword::Schema, _) => resolves(v, defs, expanding),
        (Keyword::SchemaMap, JsonView::Object(m)) => resolves_map(m, defs, expanding),
        (Keyword::SchemaList, JsonView::Array(a)) => resolves_list(a, defs, expanding),
        (Keyword::Extra, JsonView::Object(_)) => resolves(v, defs, expanding),
        _ => true,
    }
}

/// Whether the schemas that are the values of `m` resolve.
pub open spec fn resolves_map(m: SchemaView, defs: SchemaView, expanding: Set<Seq<char>>) -> bool
    decreases unexpanded(defs, expanding), JsonView::Object(m), 3nat,
    when defs.dom().finite()
{
    proof {
        let v = JsonView::Object(m);
        assert forall|k: Seq<char>| m.contains_key(k) implies #[trigger] decreases_to!(v => m[k]) by {
            assert(decreases_to!(v => v->Object_0[k]));
        }
    }
    forall|k: Seq<char>| #[trigger] m.contains_key(k) ==> resolves(m[k], defs, expanding)
}

/// Whether the schemas in `a` resolve.
pub open spec fn resolves_list(
    a: Seq<JsonView>,
    defs: SchemaView,
    expanding: Set<Seq<char>>,
) -> bool
    decreases unexpanded(defs, expanding), JsonView::Array(a), 3nat,
    when defs.dom().finite()
{
    proof {
        let v = JsonView::Array(a);
        assert forall|i: int| 0 <= i < a.len() implies #[trigger] decreases_to!(v => a[i]) by {
            assert(decreases_to!(v => v->Array_0));
            assert(decreases_to!(v->Array_0 => v->Array_0[i]));
        }
    }
    forall|i: int| 0 <= i < a.len() ==> resolves(#[trigger] a[i], defs, expanding)
}

/// Whether every reference that is met when the schema `o` is rewritten has a
/// definition.
pub open spec fn all_resolve(o: SchemaView) -> bool {
    resolves_object(without_defs(o), defs_of(o), Set::empty().insert(root_name()))
}

/// What the value of the keyword `name` is.
fn keyword_kind(name: &str) -> (r: Keyword)
    ensures
        r == keyword(name@),
{
    if text_eq(name, "items") || text_eq(name, "unevaluatedItems") || text_eq(name, "not")
        || text_eq(name, "if") || text_eq(name, "then") || text_eq(name, "else") || text_eq(
        name,
        "contains",
    ) || text_eq(name, "propertyNames") {
        Keyword::Schema
    } else if text_eq(name, "properties") || text_eq(name, "patternProperties") || text_eq(
        name,
        "dependentSchemas",
    ) {
        Keyword::SchemaMap
    } else if text_eq(name, "prefixItems") || text_eq(name, "anyOf") || text_eq(name, "oneOf")
        || text_eq(name, "allOf") {
        Keyword::SchemaList
    } else if text_eq(name, "additionalProperties") || text_eq(name, "unevaluatedProperties") {
        Keyword::Extra
    } else {
        Keyword::Data
    }
}

/// The name of the definition that `ref_str` stands for: the last segment of the
/// JSON Pointer, with `~1` read as `/` and `~0` as `~`.
pub fn ref_target_name(ref_str: &str) -> (r: String)
    ensures
        r@ == target_name(ref_str@),
{
    let chars = chars_of(ref_str);
    let mut start: usize = chars.len();
    proof {
        assert(chars@.take(start as int) =~= chars@);
        assert(last_segment(chars@) =~= last_segment(chars@.take(start as int))
            + chars@.subrange(start as int, chars@.len() as int));
    }
    while start > 0 && chars[start - 1] != '/'
        invariant
            start <= chars@.len(),
            last_segment(chars@) == last_segment(chars@.take(start as int)) + chars@.subrange(
                start as int,
                chars@.len() as int,
            ),
        decreases start,
    {
        proof {
            assert(chars@.take(start as int).drop_last() =~= chars@.take(start - 1));
            assert(last_segment(chars@.take(start - 1)).push(chars@[start - 1]) + chars@.subrange(
                start as int,
                chars@.len() as int,
            ) =~= last_segment(chars@.take(start - 1)) + chars@.subrange(
                start - 1,
                chars@.len() as int,
            ));
        }
        start = start - 1;
    }
    let ghost segment = chars@.subrange(start as int, chars@.len() as int);
    proof {
        assert(last_segment(chars@.take(start as int)) =~= seq![]);
        assert(last_segment(chars@) =~= segment);
    }
    let mut r = String::new();
    let mut i: usize = start;
    proof {
        assert(segment.skip(0) =~= segment);
        assert(r@ + unescaped(segment.skip(0)) =~= unescaped(segment));
    }
    while i < chars.len()
        invariant
            start <= i <= chars@.len(),
            segment == chars@.subrange(start as int, chars@.len() as int),
            unescaped(segment) == r@ + unescaped(segment.skip(i - start)),
        decreases chars@.len() - i,
    {
        let ghost rest = segment.skip(i - start);
        let ghost before = r@;
        let pair = i + 1 < chars.len() && chars[i] == '~';
        proof {
            assert(rest[0] == chars@[i as int]);
            assert(rest.skip(1) =~= segment.skip(i - start + 1));
            if pair {
                assert(rest[1] == chars@[i + 1]);
                assert(rest.skip(2) =~= segment.skip(i - start + 2));
            }
        }
        if pair && chars[i + 1] == '1' {
            r.push('/');
            assert(r@ + unescaped(rest.skip(2)) =~= before + (seq!['/'] + unescaped(rest.skip(2))));
            i = i + 2;
        } else if pair && chars[i + 1] == '0' {
            r.push('~');
            assert(r@ + unescaped(rest.skip(2)) =~= before + (seq!['~'] + unescaped(rest.skip(2))));
            i = i + 2;
        } else {
            r.push(chars[i]);
            assert(r@ + unescaped(rest.skip(1)) =~= before + (seq![rest[0]] + unescaped(
                rest.skip(1),
            )));
            i = i + 1;
        }
    }
    proof {
        assert(segment.skip(chars@.len() - start) =~= seq![]);
        assert(r@ + unescaped(seq![]) =~= r@);
    }
    r
}

/// The set of names in a list.
pub open spec fn name_set(names: Seq<String>) -> Set<Seq<char>> {
    views(names).to_set()
}

/// Whether `name` is one of `names`.
fn is_one_of(names: &Vec<String>, name: &str) -> (r: bool)
    ensures
        r == name_set(names@).contains(name@),
{
    let mut i: usize = 0;
    while i < names.len()
        invariant
            i <= names@.len(),
            forall|k: int| 0 <= k < i ==> (#[trigger] names@[k])@ != name@,
        decreases names@.len() - i,
    {
        if text_eq(names[i].as_str(), name) {
            assert(views(names@)[i as int] == name@);
            return true;
        }
        i = i + 1;
    }
    proof {
        if views(names@).contains(name@) {
            let k = choose|k: int| 0 <= k < views(names@).len() && views(names@)[k] == name@;
            assert(names@[k]@ == name@);
        }
    }
    false
}

/// A member of an object is smaller than the object.
proof fn lemma_member_smaller(o: SchemaView, k: Seq<char>)
    requires
        o.contains_key(k),
    ensures
        decreases_to!(JsonView::Object(o) => o[k]),
{
    let v = JsonView::Object(o);
    assert(decreases_to!(v => v->Object_0[k]));
}

/// `v`, which stands where a schema is expected, written out.
fn expand_position(v: &Json, defs: &JsonObject, expanding: &mut Vec<String>) -> (r: Json)
    requires
        defs@.dom().finite(),
    ensures
        r@ == expanded(v@, defs@, name_set(old(expanding)@)),
        final(expanding)@ == old(expanding)@,
    decreases unexpanded(defs@, name_set(old(expanding)@)), v@, 3nat,
{
    match v {
        Json::Bool(allow) => {
            let mut schema = JsonObject::new();
            if !*allow {
                schema.insert("not", Json::Object(JsonObject::new()));
            }
            Json::Object(schema)
        },
        Json::Object(o) => Json::Object(expand_object(o, defs, expanding)),
        _ => v.duplicate(),
    }
}

/// The schema `o` written out.
fn expand_object(o: &JsonObject, defs: &JsonObject, expanding: &mut Vec<String>) -> (r: JsonObject)
    requires
        defs@.dom().finite(),
    ensures
        r@ == expanded_object(o@, defs@, name_set(old(expanding)@)),
        final(expanding)@ == old(expanding)@,
    decreases unexpanded(defs@, name_set(old(expanding)@)), JsonView::Object(o@), 2nat,
{
    let ghost names = name_set(expanding@);
    let name = match o.get("$ref") {
        Some(Json::Text(reference)) => ref_target_name(reference.as_str()),
        _ => {
            return walk_members(o, defs, expanding);
        },
    };
    let mut target: JsonObject = JsonObject::new();
    if is_one_of(expanding, name.as_str()) {
        if let Some(Json::Object(def)) = defs.get(name.as_str()) {
            if let Some(ty) = def.get("type") {
                target.insert("type", ty.duplicate());
            }
        }
        assert(target@ =~= type_only(defs@, name@));
    } else if let Some(Json::Object(def)) = defs.get(name.as_str()) {
        let ghost before = expanding@;
        proof {
            defs@.dom().lemma_set_insert_diff_decreases(names, name@);
        }
        expanding.push(name);
        proof {
            assert(views(expanding@) =~= views(before).push(name@));
            views(before).lemma_push_to_set_commute(name@);
        }
        target = expand_object(def, defs, expanding);
        expanding.pop();
        assert(expanding@ =~= before);
    }
    let others = walk_members(o, defs, expanding);
    merge_over(target, &others)
}

/// The members of `target` and `over`. Where both have a member of the same
/// name, it is that of `over`.
fn merge_over(target: JsonObject, over: &JsonObject) -> (r: JsonObject)
    ensures
        r@ == target@.union_prefer_right(over@),
{
    let mut r = target;
    let ghost start = r@;
    let n: usize = over.len();
    let ghost names = over.names();
    let mut i: usize = 0;
    proof {
        assert forall|k: Seq<char>| #[trigger] over@.contains_key(k) implies names.contains(k) by {
            assert(over@.dom().contains(k));
            assert(names.to_set().contains(k));
        }
        lemma_part_all(over@, names);
        assert(start =~= start.union_prefer_right(part(over@, names, 0)));
    }
    while i < n
        invariant
            i <= n == names.len(),
            names == over.names(),
            r@ == start.union_prefer_right(part(over@, names, i as int)),
        decreases n - i,
    {
        let value = over.value(i).duplicate();
        proof {
            lemma_part_step(over@, names, i as int);
            assert(start.union_prefer_right(part(over@, names, i + 1)) =~= r@.insert(
                names[i as int],
                value@,
            ));
        }
        r.insert(over.name(i), value);
        i = i + 1;
    }
    r
}

/// The members of `all` among the first `n` of `names`.
spec fn part(all: SchemaView, names: Seq<Seq<char>>, n: int) -> SchemaView {
    Map::new(|k: Seq<char>| all.contains_key(k) && names.take(n).contains(k), |k: Seq<char>| all[k])
}

proof fn lemma_part_step(all: SchemaView, names: Seq<Seq<char>>, n: int)
    requires
        0 <= n < names.len(),
    ensures
        part(all, names, n + 1) == (if all.contains_key(names[n]) {
            part(all, names, n).insert(names[n], all[names[n]])
        } else {
            part(all, names, n)
        }),
{
    let more = names.take(n + 1);
    let some = names.take(n);
    assert(more =~= some.push(names[n]));
    assert forall|k: Seq<char>| more.contains(k) <==> some.contains(k) || k == names[n] by {
        if some.contains(k) {
            let i = choose|i: int| 0 <= i < some.len() && some[i] == k;
            assert(more[i] == k);
        }
        assert(more[n] == names[n]);
        if more.contains(k) && k != names[n] {
            let i = choose|i: int| 0 <= i < more.len() && more[i] == k;
            assert(some[i] == k);
        }
    }
    if all.contains_key(names[n]) {
        assert(part(all, names, n + 1) =~= part(all, names, n).insert(names[n], all[names[n]]));
    } else {
        assert(part(all, names, n + 1) =~= part(all, names, n));
    }
}

/// All members of an object are those among its names.
proof fn lemma_part_all(all: SchemaView, names: Seq<Seq<char>>)
    requires
        forall|k: Seq<char>| #[trigger] all.contains_key(k) ==> names.contains(k),
    ensures
        part(all, names, names.len() as int) == all,
        part(all, names, 0) == Map::<Seq<char>, JsonView>::empty(),
{
    assert(names.take(names.len() as int) =~= names);
    assert(part(all, names, names.len() as int) =~= all);
    assert(part(all, names, 0) =~= Map::<Seq<char>, JsonView>::empty());
}

/// The members of the schema `o`, with the schemas in them written out, without
/// the reference if `o` is one.
fn walk_members(o: &JsonObject, defs: &JsonObject, expanding: &mut Vec<String>) -> (r: JsonObject)
    requires
        defs@.dom().finite(),
    ensures
        r@ == walked(o@, defs@, name_set(old(expanding)@)),
        final(expanding)@ == old(expanding)@,
    decreases unexpanded(defs@, name_set(old(expanding)@)), JsonView::Object(o@), 1nat,
{
    let reference = match o.get("$ref") {
        Some(Json::Text(_)) => true,
        _ => false,
    };
    let ghost stack = expanding@;
    let ghost all = walked(o@, defs@, name_set(stack));
    let n: usize = o.len();
    let ghost names = o.names();
    let mut r = JsonObject::new();
    let mut i: usize = 0;
    proof {
        assert forall|k: Seq<char>| #[trigger] all.contains_key(k) implies names.contains(k) by {
            assert(o@.dom().contains(k));
            assert(names.to_set().contains(k));
        }
        lemma_part_all(all, names);
    }
    while i < n
        invariant
            i <= n == names.len(),
            names == o.names(),
            defs@.dom().finite(),
            stack == expanding@,
            stack == old(expanding)@,
            all == walked(o@, defs@, name_set(stack)),
            reference == is_reference(o@),
            r@ == part(all, names, i as int),
        decreases n - i,
    {
        let name = o.name(i);
        let value = o.value(i);
        proof {
            lemma_part_step(all, names, i as int);
            lemma_member_smaller(o@, names[i as int]);
        }
        if !(reference && text_eq(name, "$ref")) {
            r.insert(name, walk_member(name, value, defs, expanding));
        }
        i = i + 1;
    }
    r
}

/// The value `v` of the keyword `name`, with the schemas in it written out.
fn walk_member(name: &str, v: &Json, defs: &JsonObject, expanding: &mut Vec<String>) -> (r: Json)
    requires
        defs@.dom().finite(),
    ensures
        r@ == walked_member(name@, v@, defs@, name_set(old(expanding)@)),
        final(expanding)@ == old(expanding)@,
    decreases unexpanded(defs@, name_set(old(expanding)@)), v@, 4nat,
{
    match keyword_kind(name) {
        Keyword::Schema => expand_position(v, defs, expanding),
        Keyword::SchemaMap => match v {
            Json::Object(m) => Json::Object(expand_map(m, defs, expanding)),
            _ => v.duplicate(),
        },
        Keyword::SchemaList => match v {
            Json::Array(a) => Json::Array(expand_list(a, defs, expanding)),
            _ => v.duplicate(),
        },
        Keyword::Extra => match v {
            Json::Object(_) => expand_position(v, defs, expanding),
            _ => v.duplicate(),
        },
        Keyword::Data => v.duplicate(),
    }
}

/// The schemas that are the values of `m`, written out.
fn expand_map(m: &JsonObject, defs: &JsonObject, expanding: &mut Vec<String>) -> (r: JsonObject)
    requires
        defs@.dom().finite(),
    ensures
        r@ == expanded_map(m@, defs@, name_set(old(expanding)@)),
        final(expanding)@ == old(expanding)@,
    decreases unexpanded(defs@, name_set(old(expanding)@)), JsonView::Object(m@), 3nat,
{
    let ghost stack = expanding@;
    let ghost all = expanded_map(m@, defs@, name_set(stack));
    let n: usize = m.len();
    let ghost names = m.names();
    let mut r = JsonObject::new();
    let mut i: usize = 0;
    proof {
        assert forall|k: Seq<char>| #[trigger] all.contains_key(k) implies names.contains(k) by {
            assert(m@.dom().contains(k));
            assert(names.to_set().contains(k));
        }
        lemma_part_all(all, names);
    }
    while i < n
        invariant
            i <= n == names.len(),
            names == m.names(),
            defs@.dom().finite(),
            stack == expanding@,
            stack == old(expanding)@,
            all == expanded_map(m@, defs@, name_set(stack)),
            r@ == part(all, names, i as int),
        decreases n - i,
    {
        let value = m.value(i);
        proof {
            lemma_part_step(all, names, i as int);
            lemma_member_smaller(m@, names[i as int]);
        }
        r.insert(m.name(i), expand_position(value, defs, expanding));
        i = i + 1;
    }
    r
}

/// The schemas in `a`, written out.
fn expand_list(a: &Vec<Json>, defs: &JsonObject, expanding: &mut Vec<String>) -> (r: Vec<Json>)
    requires
        defs@.dom().finite(),
    ensures
        list_view(r@) == expanded_list(list_view(a@), defs@, name_set(old(expanding)@)),
        final(expanding)@ == old(expanding)@,
    decreases
            unexpanded(defs@, name_set(old(expanding)@)),
            JsonView::Array(list_view(a@)),
            3nat,
{
    let ghost stack = expanding@;
    let ghost all = list_view(a@);
    let mut r: Vec<Json> = Vec::new();
    let mut i: usize = 0;
    while i < a.len()
        invariant
            i <= a@.len(),
            all == list_view(a@),
            defs@.dom().finite(),
            stack == expanding@,
            stack == old(expanding)@,
            r@.len() == i,
            forall|k: int|
                0 <= k < i ==> (#[trigger] r@[k])@ == expanded(all[k], defs@, name_set(stack)),
        decreases a@.len() - i,
    {
        proof {
            let v = JsonView::Array(all);
            assert(decreases_to!(v => v->Array_0));
            assert(decreases_to!(v->Array_0 => v->Array_0[i as int]));
            assert(all[i as int] == a@[i as int]@);
        }
        r.push(expand_position(&a[i], defs, expanding));
        i = i + 1;
    }
    assert(list_view(r@) =~= expanded_list(all, defs@, name_set(stack)));
    r
}

/// Takes the definitions out of the schema: the members of `$defs`, and those of
/// `definitions`, its name in earlier drafts.
fn take_defs(schema: &mut JsonObject) -> (r: JsonObject)
    ensures
        final(schema)@ == without_defs(old(schema)@),
        r@ == members_at(old(schema)@, "$defs"@).union_prefer_right(
            members_at(old(schema)@, "definitions"@),
        ),
{
    proof {
        reveal_strlit("$defs");
        reveal_strlit("definitions");
        assert("$defs"@.len() != "definitions"@.len());
    }
    let first = match schema.remove("$defs") {
        Some(Json::Object(map)) => map,
        _ => JsonObject::new(),
    };
    let second = match schema.remove("definitions") {
        Some(Json::Object(map)) => map,
        _ => JsonObject::new(),
    };
    merge_over(first, &second)
}

/// Takes the definitions out of the schema, and adds the schema without them.
fn known_defs(schema: &mut JsonObject) -> (r: JsonObject)
    ensures
        final(schema)@ == without_defs(old(schema)@),
        r@ == defs_of(old(schema)@),
        r@.dom().finite(),
{
    let mut defs = take_defs(schema);
    proof {
        reveal_strlit("#");
        assert("#"@ =~= root_name());
    }
    defs.insert("#", Json::Object(schema.duplicate()));
    // That there are finitely many definitions is why the rewriting ends.
    let _count: usize = defs.len();
    defs
}

/// The names of what is being written out at the start: the whole schema.
fn root_only() -> (r: Vec<String>)
    ensures
        name_set(r@) == Set::empty().insert(root_name()),
{
    let mut r: Vec<String> = Vec::new();
    r.push("#".to_string());
    proof {
        reveal_strlit("#");
        assert("#"@ =~= root_name());
        let names = views(r@);
        assert(names =~= seq![root_name()]);
        assert(names[0] == root_name());
        assert(name_set(r@) =~= Set::empty().insert(root_name()));
    }
    r
}

/// Whether writing `v` out meets no reference to something that is not defined.
fn position_resolves(v: &Json, defs: &JsonObject, expanding: &mut Vec<String>) -> (r: bool)
    requires
        defs@.dom().finite(),
    ensures
        r == resolves(v@, defs@, name_set(old(expanding)@)),
        final(expanding)@ == old(expanding)@,
    decreases unexpanded(defs@, name_set(old(expanding)@)), v@, 3nat,
{
    match v {
        Json::Object(o) => object_resolves(o, defs, expanding),
        _ => true,
    }
}

/// Whether writing the schema `o` out meets no reference to something that is not
/// defined.
fn object_resolves(o: &JsonObject, defs: &JsonObject, expanding: &mut Vec<String>) -> (r: bool)
    requires
        defs@.dom().finite(),
    ensures
        r == resolves_object(o@, defs@, name_set(old(expanding)@)),
        final(expanding)@ == old(expanding)@,
    decreases unexpanded(defs@, name_set(old(expanding)@)), JsonView::Object(o@), 2nat,
{
    let ghost stack = expanding@;
    if let Some(Json::Text(reference)) = o.get("$ref") {
        let name = ref_target_name(reference.as_str());
        if !is_one_of(expanding, name.as_str()) {
            match defs.get(name.as_str()) {
                Some(Json::Object(def)) => {
                    proof {
                        defs@.dom().lemma_set_insert_diff_decreases(name_set(stack), name@);
                    }
                    expanding.push(name);
                    proof {
                        assert(views(expanding@) =~= views(stack).push(name@));
                        views(stack).lemma_push_to_set_commute(name@);
                    }
                    let resolved = object_resolves(def, defs, expanding);
                    expanding.pop();
                    assert(expanding@ =~= stack);
                    if !resolved {
                        return false;
                    }
                },
                _ => {
                    return false;
                },
            }
        }
    }
    let n: usize = o.len();
    let ghost names = o.names();
    let mut i: usize = 0;
    while i < n
        invariant
            i <= n == names.len(),
            names == o.names(),
            defs@.dom().finite(),
            stack == expanding@,
            stack == old(expanding)@,
            forall|k: int|
                0 <= k < i ==> resolves_member(
                    #[trigger] names[k],
                    o@[names[k]],
                    defs@,
                    name_set(stack),
                ),
        decreases n - i,
    {
        let value = o.value(i);
        proof {
            lemma_member_smaller(o@, names[i as int]);
        }
        if !member_resolves(o.name(i), value, defs, expanding) {
            return false;
        }
        i = i + 1;
    }
    proof {
        assert forall|k: Seq<char>| #[trigger] o@.contains_key(k) implies resolves_member(
            k,
            o@[k],
            defs@,
            name_set(stack),
        ) by {
            assert(names.to_set().contains(k));
        }
    }
    true
}

/// Whether the schemas in the value `v` of the keyword `name` resolve.
fn member_resolves(
    name: &str,
    v: &Json,
    defs: &JsonObject,
    expanding: &mut Vec<String>,
) -> (r: bool)
    requires
        defs@.dom().finite(),
    ensures
        r == resolves_member(name@, v@, defs@, name_set(old(expanding)@)),
        final(expanding)@ == old(expanding)@,
    decreases unexpanded(defs@, name_set(old(expanding)@)), v@, 4nat,
{
    match (keyword_kind(name), v) {
        (Keyword::Schema, _) => position_resolves(v, defs, expanding),
        (Keyword::SchemaMap, Json::Object(m)) => map_resolves(m, defs, expanding),
        (Keyword::SchemaList, Json::Array(a)) => list_resolves(a, defs, expanding),
        (Keyword::Extra, Json::Object(_)) => position_resolves(v, defs, expanding),
        _ => true,
    }
}

/// Whether the schemas that are the values of `m` resolve.
fn map_resolves(m: &JsonObject, defs: &JsonObject, expanding: &mut Vec<String>) -> (r: bool)
    requires
        defs@.dom().finite(),
    ensures
        r == resolves_map(m@, defs@, name_set(old(expanding)@)),
        final(expanding)@ == old(expanding)@,
    decreases unexpanded(defs@, name_set(old(expanding)@)), JsonView::Object(m@), 3nat,
{
    let ghost stack = expanding@;
    let n: usize = m.len();
    let ghost names = m.names();
    let mut i: usize = 0;
    while i < n
        invariant
            i <= n == names.len(),
            names == m.names(),
            defs@.dom().finite(),
            stack == expanding@,
            stack == old(expanding)@,
            forall|k: int|
                0 <= k < i ==> resolves(m@[#[trigger] names[k]], defs@, name_set(stack)),
        decreases n - i,
    {
        let value = m.value(i);
        proof {
            lemma_member_smaller(m@, names[i as int]);
        }
        if !position_resolves(value, defs, expanding) {
            return false;
        }
        i = i + 1;
    }
    proof {
        assert forall|k: Seq<char>| #[trigger] m@.contains_key(k) implies resolves(
            m@[k],
            defs@,
            name_set(stack),
        ) by {
            assert(names.to_set().contains(k));
        }
    }
    true
}

/// Whether the schemas in `a` resolve.
fn list_resolves(a: &Vec<Json>, defs: &JsonObject, expanding: &mut Vec<String>) -> (r: bool)
    requires
        defs@.dom().finite(),
    ensures
        r == resolves_list(list_view(a@), defs@, name_set(old(expanding)@)),
        final(expanding)@ == old(expanding)@,
    decreases
            unexpanded(defs@, name_set(old(expanding)@)),
            JsonView::Array(list_view(a@)),
            3nat,
{
    let ghost stack = expanding@;
    let ghost all = list_view(a@);
    let mut i: usize = 0;
    while i < a.len()
        invariant
            i <= a@.len(),
            all == list_view(a@),
            defs@.dom().finite(),
            stack == expanding@,
            stack == old(expanding)@,
            forall|k: int| 0 <= k < i ==> resolves(#[trigger] all[k], defs@, name_set(stack)),
        decreases a@.len() - i,
    {
        proof {
            let v = JsonView::Array(all);
            assert(decreases_to!(v => v->Array_0));
            assert(decreases_to!(v->Array_0 => v->Array_0[i as int]));
            assert(all[i as int] == a@[i as int]@);
        }
        if !position_resolves(&a[i], defs, expanding) {
            return false;
        }
        i = i + 1;
    }
    true
}

/// Whether every reference that is met when `schema` is rewritten has a definition
/// that is an object. One that has none is a mistake in the schema, which
/// [`make_self_contained`] passes over.
pub fn references_resolve(schema: &JsonObject) -> (r: bool)
    ensures
        r == all_resolve(schema@),
{
    let mut rest = schema.duplicate();
    let defs = known_defs(&mut rest);
    let mut expanding = root_only();
    object_resolves(&rest, &defs, &mut expanding)
}

/// Rewrites `schema` so that it stands on its own:
///
/// - Every `{"$ref": "#/$defs/Name", ..}`, and `"$ref": "#"` for the whole schema,
///   becomes the definition that it refers to, rewritten too, with the other
///   members of the reference over it.
/// - A reference to a definition from inside of that definition becomes the
///   definition's type, with the other members of the reference over it.
/// - A reference to no definition, or to one that is not an object, becomes a schema
///   that allows everything, with the other members of the reference over it. It is
///   a mistake in the schema all the same, and what calls this in a debug build
///   asserts [`references_resolve`] first.
/// - `true` and `false` in place of a schema become `{}` and `{"not": {}}`. The
///   values of `additionalProperties` and `unevaluatedProperties` stay, and so
///   does all data, such as that of `enum`, `const`, `default` and `examples`.
/// - `$defs` and `definitions` are dropped.
pub fn make_self_contained(schema: &mut JsonObject)
    ensures
        final(schema)@ == standalone(old(schema)@),
        closed_object(final(schema)@),
{
    let defs = known_defs(schema);
    let mut expanding = root_only();
    proof {
        standalone_schema_is_closed(old(schema)@);
    }
    *schema = expand_object(schema, &defs, &mut expanding);
}

/// A tool that a server offers.
#[derive(Debug)]
pub struct Tool {
    /// Its name.
    pub name: String,
    /// What it does.
    pub description: Option<String>,
    /// The schema of its parameters.
    pub input_schema: Arc<JsonObject>,
}

/// `tool` with an input schema that stands on its own. The schema is copied, so
/// that no one else who holds it sees a change.
pub fn self_contained(tool: Tool) -> (r: Tool)
    ensures
        r.input_schema@ == standalone(tool.input_schema@),
        closed_object(r.input_schema@),
        r.name == tool.name,
        r.description == tool.description,
{
    let mut schema: JsonObject = tool.input_schema.duplicate();
    make_self_contained(&mut schema);
    Tool { name: tool.name, description: tool.description, input_schema: Arc::new(schema) }
}

} // verus!
