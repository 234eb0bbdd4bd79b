//! What holds of every schema that stands on its own.
use vstd::prelude::*;
use vstd::string::*;

use crate::json::JsonView;
use crate::tool_schema::{
    defs_of, expanded, expanded_list, expanded_map, expanded_object, is_reference, keyword,
    last_segment, members_at, reference_name, resolves, resolves_member, resolves_object, root_name,
    standalone, target_name, type_only, unescaped, unexpanded, walked, walked_member, without_defs,
    Keyword, SchemaView,
};

verus! {

/// Whether `v`, which stands where a schema is expected, stands on its own: it is
/// neither `true` nor `false`, and if it is a schema it holds no reference and
/// no boolean in place of a schema.
pub open spec fn closed_position(v: JsonView) -> bool
    decreases v, 1nat,
{
    match v {
        JsonView::Bool(_) => false,
        JsonView::Object(o) => closed_object(o),
        _ => true,
    }
}

/// Whether the schema `o` stands on its own: it is no reference, and all schemas
/// in it stand on their own.
pub open spec fn closed_object(o: SchemaView) -> bool
    decreases JsonView::Object(o), 0nat,
{
    proof {
        let v = JsonView::Object(o);
        assert forall|k: Seq<char>| o.contains_key(k) implies #[trigger] decreases_to!(v => o[k]) by {
            assert(decreases_to!(v => v->Object_0[k]));
        }
    }
    &&& !is_reference(o)
    &&& forall|k: Seq<char>| #[trigger] o.contains_key(k) ==> closed_member(k, o[k])
}

/// Whether all schemas in the value `v` of the keyword `k` stand on their own.
pub open spec fn closed_member(k: Seq<char>, v: JsonView) -> bool
    decreases v, 2nat,
{
    match (keyword(k), v) {
        (Keyword::Schema, _) => closed_position(v),
        (Keyword::SchemaMap, JsonView::Object(m)) => forall|j: Seq<char>| #[trigger]
            m.contains_key(j) ==> closed_position(m[j]),
        (Keyword::SchemaList, JsonView::Array(a)) => forall|i: int|
            0 <= i < a.len() ==> closed_position(#[trigger] a[i]),
        (Keyword::Extra, JsonView::Object(_)) => closed_position(v),
        _ => true,
    }
}

/// Which kinds some keywords are.
proof fn lemma_keywords()
    ensures
        keyword("not"@) == Keyword::Schema,
        keyword("type"@) == Keyword::Data,
        keyword("$ref"@) == Keyword::Data,
        "type"@ != "$ref"@,
        "not"@ != "$ref"@,
{
    reveal_strlit("items");
    reveal_strlit("unevaluatedItems");
    reveal_strlit("not");
    reveal_strlit("if");
    reveal_strlit("then");
    reveal_strlit("else");
    reveal_strlit("contains");
    reveal_strlit("propertyNames");
    reveal_strlit("properties");
    reveal_strlit("patternProperties");
    reveal_strlit("dependentSchemas");
    reveal_strlit("prefixItems");
    reveal_strlit("anyOf");
    reveal_strlit("oneOf");
    reveal_strlit("allOf");
    reveal_strlit("additionalProperties");
    reveal_strlit("unevaluatedProperties");
    reveal_strlit("type");
    reveal_strlit("$ref");
    assert("type"@[1] == 'y' && "then"@[1] == 'h');
    assert("else"@[0] == 'e');
    assert("type"@[0] == 't');
    assert("$ref"@[0] == '$');
    assert("then"@[0] == 't');
}

proof fn lemma_smaller(o: SchemaView, k: Seq<char>)
    requires
        o.contains_key(k),
    ensures
        decreases_to!(JsonView::Object(o) => o[k]),
{
    let v = JsonView::Object(o);
    assert(decreases_to!(v => v->Object_0[k]));
}

proof fn lemma_expanded_closed(v: JsonView, defs: SchemaView, expanding: Set<Seq<char>>)
    requires
        defs.dom().finite(),
    ensures
        closed_position(expanded(v, defs, expanding)),
    decreases unexpanded(defs, expanding), v, 3nat,
{
    match v {
        JsonView::Bool(allow) => {
            lemma_keywords();
            let empty = Map::<Seq<char>, JsonView>::empty();
            assert(closed_object(empty));
            assert(closed_position(JsonView::Object(empty)));
            let never = empty.insert("not"@, JsonView::Object(empty));
            assert(closed_member("not"@, JsonView::Object(empty)));
            assert(closed_object(never));
        },
        JsonView::Object(o) => {
            lemma_object_closed(o, defs, expanding);
        },
        _ => {},
    }
}

proof fn lemma_object_closed(o: SchemaView, defs: SchemaView, expanding: Set<Seq<char>>)
    requires
        defs.dom().finite(),
    ensures
        closed_object(expanded_object(o, defs, expanding)),
    decreases unexpanded(defs, expanding), JsonView::Object(o), 2nat,
{
    lemma_walked_closed(o, defs, expanding);
    if is_reference(o) {
        let name = reference_name(o);
        let rest = walked(o, defs, expanding);
        let target = if expanding.contains(name) {
            type_only(defs, name)
        } else if defs.contains_key(name) && defs[name] is Object {
            expanded_object(defs[name]->Object_0, defs, expanding.insert(name))
        } else {
            Map::empty()
        };
        assert(closed_object(target)) by {
            if expanding.contains(name) {
                lemma_keywords();
            } else if defs.contains_key(name) && defs[name] is Object {
                defs.dom().lemma_set_insert_diff_decreases(expanding, name);
                lemma_object_closed(defs[name]->Object_0, defs, expanding.insert(name));
            }
        }
        let all = target.union_prefer_right(rest);
        assert forall|k: Seq<char>| #[trigger] all.contains_key(k) implies closed_member(
            k,
            all[k],
        ) by {
            if rest.contains_key(k) {
                assert(closed_member(k, rest[k]));
            } else {
                assert(target.contains_key(k));
            }
        }
    }
}

proof fn lemma_walked_closed(o: SchemaView, defs: SchemaView, expanding: Set<Seq<char>>)
    requires
        defs.dom().finite(),
    ensures
        forall|k: Seq<char>| #[trigger]
            walked(o, defs, expanding).contains_key(k) ==> closed_member(
                k,
                walked(o, defs, expanding)[k],
            ),
        !is_reference(walked(o, defs, expanding)),
        is_reference(o) ==> !walked(o, defs, expanding).contains_key("$ref"@),
    decreases unexpanded(defs, expanding), JsonView::Object(o), 1nat,
{
    let all = walked(o, defs, expanding);
    lemma_keywords();
    assert forall|k: Seq<char>| #[trigger] all.contains_key(k) implies closed_member(
        k,
        all[k],
    ) by {
        lemma_smaller(o, k);
        lemma_member_closed(k, o[k], defs, expanding);
    }
    if all.contains_key("$ref"@) {
        assert(all["$ref"@] == walked_member("$ref"@, o["$ref"@], defs, expanding));
    }
}

proof fn lemma_member_closed(
    k: Seq<char>,
    v: JsonView,
    defs: SchemaView,
    expanding: Set<Seq<char>>,
)
    requires
        defs.dom().finite(),
    ensures
        closed_member(k, walked_member(k, v, defs, expanding)),
    decreases unexpanded(defs, expanding), v, 4nat,
{
    match (keyword(k), v) {
        (Keyword::Schema, _) => {
            lemma_expanded_closed(v, defs, expanding);
        },
        (Keyword::SchemaMap, JsonView::Object(m)) => {
            let all = expanded_map(m, defs, expanding);
            assert forall|j: Seq<char>| #[trigger] all.contains_key(j) implies closed_position(
                all[j],
            ) by {
                lemma_smaller(m, j);
                lemma_expanded_closed(m[j], defs, expanding);
            }
        },
        (Keyword::SchemaList, JsonView::Array(a)) => {
            let all = expanded_list(a, defs, expanding);
            assert forall|i: int| 0 <= i < all.len() implies closed_position(#[trigger] all[i]) by {
                assert(decreases_to!(v => v->Array_0));
                assert(decreases_to!(v->Array_0 => v->Array_0[i]));
                lemma_expanded_closed(a[i], defs, expanding);
            }
        },
        (Keyword::Extra, JsonView::Object(_)) => {
            lemma_expanded_closed(v, defs, expanding);
        },
        _ => {},
    }
}

proof fn lemma_expanded_same(v: JsonView, defs: SchemaView, expanding: Set<Seq<char>>)
    requires
        defs.dom().finite(),
        closed_position(v),
    ensures
        expanded(v, defs, expanding) == v,
    decreases v, 1nat,
{
    if let JsonView::Object(o) = v {
        lemma_object_same(o, defs, expanding);
    }
}

proof fn lemma_object_same(o: SchemaView, defs: SchemaView, expanding: Set<Seq<char>>)
    requires
        defs.dom().finite(),
        closed_object(o),
    ensures
        expanded_object(o, defs, expanding) == o,
    decreases JsonView::Object(o), 0nat,
{
    let all = walked(o, defs, expanding);
    assert forall|k: Seq<char>| o.contains_key(k) implies #[trigger] all[k] == o[k] by {
        lemma_smaller(o, k);
        lemma_member_same(k, o[k], defs, expanding);
    }
    assert(all =~= o);
}

proof fn lemma_member_same(k: Seq<char>, v: JsonView, defs: SchemaView, expanding: Set<Seq<char>>)
    requires
        defs.dom().finite(),
        closed_member(k, v),
    ensures
        walked_member(k, v, defs, expanding) == v,
    decreases v, 2nat,
{
    match (keyword(k), v) {
        (Keyword::Schema, _) => {
            lemma_expanded_same(v, defs, expanding);
        },
        (Keyword::SchemaMap, JsonView::Object(m)) => {
            let all = expanded_map(m, defs, expanding);
            assert forall|j: Seq<char>| m.contains_key(j) implies #[trigger] all[j] == m[j] by {
                lemma_smaller(m, j);
                lemma_expanded_same(m[j], defs, expanding);
            }
            assert(all =~= m);
        },
        (Keyword::SchemaList, JsonView::Array(a)) => {
            let all = expanded_list(a, defs, expanding);
            assert forall|i: int| 0 <= i < a.len() implies #[trigger] all[i] == a[i] by {
                assert(decreases_to!(v => v->Array_0));
                assert(decreases_to!(v->Array_0 => v->Array_0[i]));
                lemma_expanded_same(a[i], defs, expanding);
            }
            assert(all =~= a);
        },
        (Keyword::Extra, JsonView::Object(_)) => {
            lemma_expanded_same(v, defs, expanding);
        },
        _ => {},
    }
}

/// A rewritten schema holds no reference where a schema is expected, and no
/// `true` or `false` in place of a schema.
pub proof fn standalone_schema_is_closed(o: SchemaView)
    requires
        defs_of(o).dom().finite(),
    ensures
        closed_object(standalone(o)),
{
    lemma_object_closed(without_defs(o), defs_of(o), Set::empty().insert(root_name()));
}

/// A schema that stands on its own stays as it is, but for its definitions.
pub proof fn closed_schema_stays(o: SchemaView)
    requires
        defs_of(o).dom().finite(),
        closed_object(o),
    ensures
        standalone(o) == without_defs(o),
        !o.contains_key("$defs"@) && !o.contains_key("definitions"@) ==> standalone(o) == o,
{
    let rest = without_defs(o);
    assert forall|k: Seq<char>| #[trigger] rest.contains_key(k) implies closed_member(
        k,
        rest[k],
    ) by {
        assert(o.contains_key(k));
    }
    assert(!is_reference(rest)) by {
        if rest.contains_key("$ref"@) {
            assert(rest["$ref"@] == o["$ref"@]);
        }
    }
    lemma_object_same(rest, defs_of(o), Set::empty().insert(root_name()));
    if !o.contains_key("$defs"@) && !o.contains_key("definitions"@) {
        assert(rest =~= o);
    }
}

/// The other members of a schema win over those of the definition that it refers
/// to, and data is kept as it is: also a reference or a boolean in it, and a
/// boolean `additionalProperties`.
pub proof fn own_data_is_kept(
    o: SchemaView,
    defs: SchemaView,
    expanding: Set<Seq<char>>,
    k: Seq<char>,
)
    requires
        defs.dom().finite(),
        o.contains_key(k),
        k != "$ref"@ || !is_reference(o),
    ensures
        expanded_object(o, defs, expanding).contains_key(k),
        expanded_object(o, defs, expanding)[k] == walked_member(k, o[k], defs, expanding),
        keyword(k) == Keyword::Data ==> expanded_object(o, defs, expanding)[k] == o[k],
        keyword(k) == Keyword::Extra && o[k] is Bool ==> expanded_object(o, defs, expanding)[k]
            == o[k],
{
    let own = walked(o, defs, expanding);
    assert(own.contains_key(k));
    assert(own[k] == walked_member(k, o[k], defs, expanding));
}

/// The members of a schema that is no reference are those that it had, without
/// its definitions.
pub proof fn members_are_kept(o: SchemaView)
    requires
        defs_of(o).dom().finite(),
        !is_reference(o),
    ensures
        standalone(o).dom() == o.dom().remove("$defs"@).remove("definitions"@),
{
    let rest = without_defs(o);
    assert(!is_reference(rest)) by {
        if rest.contains_key("$ref"@) {
            assert(rest["$ref"@] == o["$ref"@]);
        }
    }
    let own = walked(rest, defs_of(o), Set::empty().insert(root_name()));
    assert(own.dom() =~= rest.dom());
    assert(rest.dom() =~= o.dom().remove("$defs"@).remove("definitions"@));
}

/// Rewriting a schema again changes nothing, if it is no reference.
pub proof fn rewriting_is_idempotent(o: SchemaView)
    requires
        defs_of(o).dom().finite(),
        !is_reference(o),
    ensures
        standalone(standalone(o)) == standalone(o),
{
    let s = standalone(o);
    members_are_kept(o);
    standalone_schema_is_closed(o);
    let none = Map::<Seq<char>, JsonView>::empty();
    assert(!s.dom().contains("$defs"@));
    assert(!s.dom().contains("definitions"@));
    assert(members_at(s, "$defs"@).union_prefer_right(members_at(s, "definitions"@)) =~= none);
    closed_schema_stays(s);
}

/// A name as it is written in a JSON Pointer.
pub open spec fn escaped(name: Seq<char>) -> Seq<char>
    decreases name.len(),
{
    if name.len() == 0 {
        seq![]
    } else if name[0] == '~' {
        seq!['~', '0'] + escaped(name.skip(1))
    } else if name[0] == '/' {
        seq!['~', '1'] + escaped(name.skip(1))
    } else {
        seq![name[0]] + escaped(name.skip(1))
    }
}

/// A pointer to a definition leads to it, whatever characters its name holds.
pub proof fn pointer_leads_to_its_definition(path: Seq<char>, name: Seq<char>)
    ensures
        target_name(path.push('/') + escaped(name)) == name,
{
    lemma_escaped(name);
    lemma_last_segment(path, escaped(name));
}

proof fn lemma_escaped(name: Seq<char>)
    ensures
        unescaped(escaped(name)) == name,
        forall|i: int| 0 <= i < escaped(name).len() ==> #[trigger] escaped(name)[i] != '/',
    decreases name.len(),
{
    if name.len() > 0 {
        let rest = escaped(name.skip(1));
        let s = escaped(name);
        lemma_escaped(name.skip(1));
        assert(seq![name[0]] + name.skip(1) =~= name);
        if name[0] == '~' || name[0] == '/' {
            assert(s.skip(2) =~= rest);
        } else {
            assert(s.skip(1) =~= rest);
        }
    }
}

proof fn lemma_last_segment(path: Seq<char>, segment: Seq<char>)
    requires
        forall|i: int| 0 <= i < segment.len() ==> #[trigger] segment[i] != '/',
    ensures
        last_segment(path.push('/') + segment) == segment,
    decreases segment.len(),
{
    let s = path.push('/') + segment;
    if segment.len() == 0 {
        assert(s =~= path.push('/'));
        assert(last_segment(s) =~= segment);
    } else {
        lemma_last_segment(path, segment.drop_last());
        assert(s.drop_last() =~= path.push('/') + segment.drop_last());
        assert(s.last() == segment[segment.len() - 1]);
        assert(segment.drop_last().push(segment.last()) =~= segment);
    }
}

/// The keywords whose value is one schema.
pub open spec fn holds_schema(k: Seq<char>) -> bool {
    ||| k == "items"@
    ||| k == "unevaluatedItems"@
    ||| k == "not"@
    ||| k == "if"@
    ||| k == "then"@
    ||| k == "else"@
    ||| k == "contains"@
    ||| k == "propertyNames"@
}

/// The keywords whose value is an object of schemas.
pub open spec fn holds_schema_map(k: Seq<char>) -> bool {
    ||| k == "properties"@
    ||| k == "patternProperties"@
    ||| k == "dependentSchemas"@
}

/// The keywords whose value is an array of schemas.
pub open spec fn holds_schema_list(k: Seq<char>) -> bool {
    ||| k == "prefixItems"@
    ||| k == "anyOf"@
    ||| k == "oneOf"@
    ||| k == "allOf"@
}

/// The keywords whose value is a schema or a plain boolean.
pub open spec fn holds_schema_or_flag(k: Seq<char>) -> bool {
    ||| k == "additionalProperties"@
    ||| k == "unevaluatedProperties"@
}

/// The keywords whose value is data.
pub open spec fn holds_data(k: Seq<char>) -> bool {
    !holds_schema(k) && !holds_schema_map(k) && !holds_schema_list(k) && !holds_schema_or_flag(k)
}

/// Whether `w` is `v`, which stands where a schema is expected, written out: an
/// object is written out as a schema, `true` allows everything, `false` nothing,
/// and anything else stays.
pub open spec fn is_written_out(
    v: JsonView,
    w: JsonView,
    defs: SchemaView,
    expanding: Set<Seq<char>>,
) -> bool {
    match v {
        JsonView::Object(o) => w == JsonView::Object(expanded_object(o, defs, expanding)),
        JsonView::Bool(true) => w matches JsonView::Object(m) && m.dom() == Set::<
            Seq<char>,
        >::empty(),
        JsonView::Bool(false) => w matches JsonView::Object(m) && m.dom() == set!["not"@]
            && m["not"@] == JsonView::Object(Map::empty()),
        _ => w == v,
    }
}

proof fn lemma_written_out(v: JsonView, defs: SchemaView, expanding: Set<Seq<char>>)
    requires
        defs.dom().finite(),
    ensures
        is_written_out(v, expanded(v, defs, expanding), defs, expanding),
{
    let empty = Map::<Seq<char>, JsonView>::empty();
    assert(empty.dom() =~= Set::empty());
    assert(empty.insert("not"@, JsonView::Object(empty)).dom() =~= set!["not"@]);
}

/// The kinds of the keywords.
proof fn lemma_keyword_kinds(k: Seq<char>)
    ensures
        holds_schema(k) <==> keyword(k) == Keyword::Schema,
        holds_schema_map(k) <==> keyword(k) == Keyword::SchemaMap,
        holds_schema_list(k) <==> keyword(k) == Keyword::SchemaList,
        holds_schema_or_flag(k) <==> keyword(k) == Keyword::Extra,
        holds_data(k) <==> keyword(k) == Keyword::Data,
{
    reveal_strlit("items");
    reveal_strlit("unevaluatedItems");
    reveal_strlit("not");
    reveal_strlit("if");
    reveal_strlit("then");
    reveal_strlit("else");
    reveal_strlit("contains");
    reveal_strlit("propertyNames");
    reveal_strlit("properties");
    reveal_strlit("patternProperties");
    reveal_strlit("dependentSchemas");
    reveal_strlit("prefixItems");
    reveal_strlit("anyOf");
    reveal_strlit("oneOf");
    reveal_strlit("allOf");
    reveal_strlit("additionalProperties");
    reveal_strlit("unevaluatedProperties");
    assert("items"@[0] == 'i');
    assert("anyOf"@[0] == 'a' && "oneOf"@[0] == 'o' && "allOf"@[0] == 'a');
    assert("unevaluatedItems"@[0] == 'u' && "dependentSchemas"@[0] == 'd');
    assert("properties"@.len() == 10 && "patternProperties"@.len() == 17);
    assert("dependentSchemas"@.len() == 16 && "prefixItems"@.len() == 11);
    assert("anyOf"@.len() == 5 && "oneOf"@.len() == 5 && "allOf"@.len() == 5);
    assert("additionalProperties"@.len() == 20 && "unevaluatedProperties"@.len() == 21);
}

/// Every member of a schema is written out by what its keyword says its value is:
/// a schema, an object of schemas, an array of schemas, or data, which stays. None
/// is lost but the reference.
pub proof fn members_are_written_out_by_their_keywords(
    o: SchemaView,
    defs: SchemaView,
    expanding: Set<Seq<char>>,
    k: Seq<char>,
)
    requires
        defs.dom().finite(),
        o.contains_key(k),
        k == "$ref"@ ==> !(o[k] is Text),
    ensures
        ({
            let all = expanded_object(o, defs, expanding);
            &&& all.contains_key(k)
            &&& holds_schema(k) ==> is_written_out(o[k], all[k], defs, expanding)
            &&& holds_schema_map(k) ==> match o[k] {
                JsonView::Object(m) => all[k] matches JsonView::Object(w) && w.dom() == m.dom()
                    && forall|n: Seq<char>| #[trigger]
                    m.contains_key(n) ==> is_written_out(m[n], w[n], defs, expanding),
                _ => all[k] == o[k],
            }
            &&& holds_schema_list(k) ==> match o[k] {
                JsonView::Array(a) => all[k] matches JsonView::Array(w) && w.len() == a.len()
                    && forall|i: int|
                    0 <= i < a.len() ==> is_written_out(
                        #[trigger] a[i],
                        w[i],
                        defs,
                        expanding,
                    ),
                _ => all[k] == o[k],
            }
            &&& holds_schema_or_flag(k) ==> match o[k] {
                JsonView::Object(p) => all[k] == JsonView::Object(
                    expanded_object(p, defs, expanding),
                ),
                _ => all[k] == o[k],
            }
            &&& holds_data(k) ==> all[k] == o[k]
        }),
{
    own_data_is_kept(o, defs, expanding, k);
    lemma_keyword_kinds(k);
    lemma_written_out(o[k], defs, expanding);
    if let JsonView::Object(m) = o[k] {
        let w = expanded_map(m, defs, expanding);
        assert(w.dom() =~= m.dom());
        assert forall|n: Seq<char>| #[trigger] m.contains_key(n) implies is_written_out(
            m[n],
            w[n],
            defs,
            expanding,
        ) by {
            assert(w[n] == expanded(m[n], defs, expanding));
            lemma_written_out(m[n], defs, expanding);
        }
    }
    if let JsonView::Array(a) = o[k] {
        let w = expanded_list(a, defs, expanding);
        assert forall|i: int| 0 <= i < a.len() implies is_written_out(
            #[trigger] a[i],
            w[i],
            defs,
            expanding,
        ) by {
            assert(w[i] == expanded(a[i], defs, expanding));
            lemma_written_out(a[i], defs, expanding);
        }
    }
}

/// A schema that is no reference has, written out, the members that it had, and no
/// others.
pub proof fn no_member_is_added(o: SchemaView, defs: SchemaView, expanding: Set<Seq<char>>)
    requires
        defs.dom().finite(),
        !(o.contains_key("$ref"@) && o["$ref"@] is Text),
    ensures
        expanded_object(o, defs, expanding).dom() == o.dom(),
{
    assert(walked(o, defs, expanding).dom() =~= o.dom());
}

/// A reference keeps all of its definition: written out it has the members that it
/// had besides the reference, and those of the definition, written out. Its own
/// members win. Data of the definition stays as it is.
pub proof fn a_reference_keeps_its_definition(
    o: SchemaView,
    defs: SchemaView,
    expanding: Set<Seq<char>>,
    reference: Seq<char>,
    definition: SchemaView,
)
    requires
        defs.dom().finite(),
        o.contains_key("$ref"@),
        o["$ref"@] == JsonView::Text(reference),
        !expanding.contains(target_name(reference)),
        defs.contains_key(target_name(reference)),
        defs[target_name(reference)] == JsonView::Object(definition),
    ensures
        ({
            let all = expanded_object(o, defs, expanding);
            let inner = expanded_object(
                definition,
                defs,
                expanding.insert(target_name(reference)),
            );
            &&& all.dom() == o.dom().remove("$ref"@).union(inner.dom())
            &&& forall|k: Seq<char>| #[trigger]
                inner.contains_key(k) && !o.contains_key(k) ==> all[k] == inner[k]
            &&& forall|k: Seq<char>| #[trigger]
                definition.contains_key(k) && k != "$ref"@ ==> all.contains_key(k) && (holds_data(k)
                    && !o.contains_key(k) ==> all[k] == definition[k])
        }),
{
    let name = target_name(reference);
    let all = expanded_object(o, defs, expanding);
    let inner = expanded_object(definition, defs, expanding.insert(name));
    let own = walked(o, defs, expanding);
    defs.dom().lemma_set_insert_diff_decreases(expanding, name);
    assert(all == inner.union_prefer_right(own));
    assert(own.dom() =~= o.dom().remove("$ref"@));
    assert(!inner.contains_key("$ref"@) || !(inner["$ref"@] is Text)) by {
        lemma_object_closed(definition, defs, expanding.insert(name));
    }
    assert(all.dom() =~= o.dom().remove("$ref"@).union(inner.dom()));
    assert forall|k: Seq<char>| #[trigger]
        inner.contains_key(k) && !o.contains_key(k) implies all[k] == inner[k] by {
        assert(!own.contains_key(k));
    }
    assert forall|k: Seq<char>| #[trigger]
        definition.contains_key(k) && k != "$ref"@ implies all.contains_key(k) && (holds_data(k)
        && !o.contains_key(k) ==> all[k] == definition[k]) by {
        members_are_written_out_by_their_keywords(definition, defs, expanding.insert(name), k);
        assert(inner.contains_key(k));
        assert(all.dom().contains(k));
    }
}

/// A reference to what is being written out becomes its type, if it has one, and
/// one to what is not defined becomes nothing, under its own members.
pub proof fn other_references_are_cut(
    o: SchemaView,
    defs: SchemaView,
    expanding: Set<Seq<char>>,
    reference: Seq<char>,
)
    requires
        defs.dom().finite(),
        o.contains_key("$ref"@),
        o["$ref"@] == JsonView::Text(reference),
    ensures
        ({
            let all = expanded_object(o, defs, expanding);
            let name = target_name(reference);
            let defined = defs.contains_key(name) && defs[name] is Object;
            let typed = expanding.contains(name) && defined && defs[name]->Object_0.contains_key(
                "type"@,
            );
            &&& expanding.contains(name) || !defined ==> all.dom() == (if typed {
                o.dom().remove("$ref"@).insert("type"@)
            } else {
                o.dom().remove("$ref"@)
            })
            &&& typed && !o.contains_key("type"@) ==> all["type"@] == defs[name]->Object_0["type"@]
        }),
{
    lemma_keywords();
    let all = expanded_object(o, defs, expanding);
    let name = target_name(reference);
    let own = walked(o, defs, expanding);
    assert(own.dom() =~= o.dom().remove("$ref"@));
    if expanding.contains(name) {
        let cut = type_only(defs, name);
        assert(all == cut.union_prefer_right(own));
        if defs.contains_key(name) && defs[name] is Object && defs[name]->Object_0.contains_key(
            "type"@,
        ) {
            assert(cut.contains_key("type"@));
            assert(all.dom() =~= o.dom().remove("$ref"@).insert("type"@));
        } else {
            assert(all.dom() =~= o.dom().remove("$ref"@));
        }
    } else if !(defs.contains_key(name) && defs[name] is Object) {
        assert(all.dom() =~= o.dom().remove("$ref"@));
    }
}

/// What a schema is rewritten with: the definitions are the members of `$defs` and
/// of `definitions`, which win, and `"#"` is the schema without them, which is being
/// written out from the start. Neither of the two is a member of that.
pub proof fn definitions_are_found_by_their_names(o: SchemaView, name: Seq<char>)
    ensures
        standalone(o) == expanded_object(
            o.remove("$defs"@).remove("definitions"@),
            defs_of(o),
            set![seq!['#']],
        ),
        ({
            let newer = o.contains_key("definitions"@) && o["definitions"@] is Object
                && o["definitions"@]->Object_0.contains_key(name);
            let older = o.contains_key("$defs"@) && o["$defs"@] is Object
                && o["$defs"@]->Object_0.contains_key(name);
            &&& defs_of(o).contains_key(name) <==> name == seq!['#'] || newer || older
            &&& name == seq!['#'] ==> defs_of(o)[name] == JsonView::Object(
                o.remove("$defs"@).remove("definitions"@),
            )
            &&& name != seq!['#'] && newer ==> defs_of(o)[name]
                == o["definitions"@]->Object_0[name]
            &&& name != seq!['#'] && older && !newer ==> defs_of(o)[name]
                == o["$defs"@]->Object_0[name]
        }),
{
    assert(Set::empty().insert(root_name()) =~= set![seq!['#']]);
}

/// The name that a reference stands for is what follows its last slash, all of it
/// if it has none.
pub proof fn a_reference_ends_with_its_name(path: Seq<char>, name: Seq<char>)
    requires
        forall|i: int| 0 <= i < name.len() ==> #[trigger] name[i] != '/',
    ensures
        target_name(path.push('/') + name) == unescaped(name),
        target_name(name) == unescaped(name),
{
    lemma_last_segment(path, name);
    lemma_one_segment(name);
}

proof fn lemma_one_segment(name: Seq<char>)
    requires
        forall|i: int| 0 <= i < name.len() ==> #[trigger] name[i] != '/',
    ensures
        last_segment(name) == name,
    decreases name.len(),
{
    if name.len() > 0 {
        lemma_one_segment(name.drop_last());
        assert(name.last() == name[name.len() - 1]);
        assert(name.drop_last().push(name.last()) =~= name);
    } else {
        assert(last_segment(name) =~= name);
    }
}

/// In a name `~1` stands for a slash and `~0` for a tilde. Everything else stands
/// for itself.
pub proof fn names_are_read_from_left_to_right(c: char, rest: Seq<char>)
    ensures
        unescaped(Seq::empty()).len() == 0,
        unescaped(seq!['~', '1'] + rest) == seq!['/'] + unescaped(rest),
        unescaped(seq!['~', '0'] + rest) == seq!['~'] + unescaped(rest),
        c != '~' || rest.len() == 0 || (rest[0] != '0' && rest[0] != '1') ==> unescaped(
            seq![c] + rest,
        ) == seq![c] + unescaped(rest),
{
    assert((seq!['~', '1'] + rest).skip(2) =~= rest);
    assert((seq!['~', '0'] + rest).skip(2) =~= rest);
    assert((seq![c] + rest).skip(1) =~= rest);
}

/// A schema resolves exactly if its own reference leads to an object that resolves,
/// or to what is being written out, and every schema in its members resolves.
pub proof fn a_schema_resolves_if_its_parts_do(
    o: SchemaView,
    defs: SchemaView,
    expanding: Set<Seq<char>>,
)
    requires
        defs.dom().finite(),
    ensures
        resolves_object(o, defs, expanding) <==> {
            &&& o.contains_key("$ref"@) ==> (o["$ref"@] matches JsonView::Text(r) ==> {
                let name = target_name(r);
                ||| expanding.contains(name)
                ||| defs.contains_key(name) && (defs[name] matches JsonView::Object(d)
                    && resolves_object(d, defs, expanding.insert(name)))
            })
            &&& forall|k: Seq<char>|
                #![trigger o[k]]
                o.contains_key(k) && (holds_schema(k) || holds_schema_or_flag(k)) ==> (
                o[k] matches JsonView::Object(p) ==> resolves_object(p, defs, expanding))
            &&& forall|k: Seq<char>, n: Seq<char>|
                #![trigger o[k], o[k]->Object_0.contains_key(n)]
                o.contains_key(k) && holds_schema_map(k) ==> (o[k] matches JsonView::Object(m)
                    ==> m.contains_key(n) ==> (m[n] matches JsonView::Object(p)
                    ==> resolves_object(p, defs, expanding)))
            &&& forall|k: Seq<char>, i: int|
                #![trigger o[k], o[k]->Array_0[i]]
                o.contains_key(k) && holds_schema_list(k) ==> (o[k] matches JsonView::Array(a)
                    ==> 0 <= i < a.len() ==> (a[i] matches JsonView::Object(p)
                    ==> resolves_object(p, defs, expanding)))
        },
{
    assert forall|k: Seq<char>| #[trigger] o.contains_key(k) implies (resolves_member(
        k,
        o[k],
        defs,
        expanding,
    ) <==> parts_resolve(k, o[k], defs, expanding)) by {
        lemma_keyword_kinds(k);
        if let JsonView::Object(m) = o[k] {
            assert(forall|n: Seq<char>| #[trigger]
                m.contains_key(n) ==> (resolves(m[n], defs, expanding) <==> (
                m[n] matches JsonView::Object(p) ==> resolves_object(p, defs, expanding))));
        }
    }
    let whole = {
        &&& o.contains_key("$ref"@) ==> (o["$ref"@] matches JsonView::Text(r) ==> {
            let name = target_name(r);
            ||| expanding.contains(name)
            ||| defs.contains_key(name) && (defs[name] matches JsonView::Object(d)
                && resolves_object(d, defs, expanding.insert(name)))
        })
        &&& forall|k: Seq<char>| #[trigger]
            o.contains_key(k) ==> parts_resolve(k, o[k], defs, expanding)
    };
    assert(resolves_object(o, defs, expanding) <==> whole);
}

/// Whether the schemas in the value `v` of the keyword `k` resolve.
spec fn parts_resolve(
    k: Seq<char>,
    v: JsonView,
    defs: SchemaView,
    expanding: Set<Seq<char>>,
) -> bool {
    &&& holds_schema(k) || holds_schema_or_flag(k) ==> (v matches JsonView::Object(p)
        ==> resolves_object(p, defs, expanding))
    &&& holds_schema_map(k) ==> (v matches JsonView::Object(m) ==> forall|n: Seq<char>| #[trigger]
        m.contains_key(n) ==> (m[n] matches JsonView::Object(p) ==> resolves_object(
            p,
            defs,
            expanding,
        )))
    &&& holds_schema_list(k) ==> (v matches JsonView::Array(a) ==> forall|i: int|
        0 <= i < a.len() ==> (#[trigger] a[i] matches JsonView::Object(p) ==> resolves_object(
            p,
            defs,
            expanding,
        )))
}

} // verus!
