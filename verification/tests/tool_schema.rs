use std::sync::Arc;

use md_kb_rag::json::{Json, JsonObject};
use md_kb_rag::tool_schema;
use md_kb_rag::tool_schema::{ref_target_name, references_resolve, self_contained, Tool};
use serde_json::Value;

fn json(text: &str) -> Value {
    serde_json::from_str(text).unwrap()
}

fn obj(v: Value) -> serde_json::Map<String, Value> {
    match v {
        Value::Object(m) => m,
        other => panic!("expected a JSON object, got {other}"),
    }
}

fn to_json(value: &Value) -> Json {
    match value {
        Value::Null => Json::Null,
        Value::Bool(b) => Json::Bool(*b),
        Value::Number(n) => Json::Number(n.to_string()),
        Value::String(s) => Json::Text(s.clone()),
        Value::Array(items) => Json::Array(items.iter().map(to_json).collect()),
        Value::Object(map) => Json::Object(to_object(map)),
    }
}

fn to_object(map: &serde_json::Map<String, Value>) -> JsonObject {
    let mut object = JsonObject::new();
    for (name, value) in map {
        object.insert(name, to_json(value));
    }
    object
}

fn from_json(json: &Json) -> Value {
    match json {
        Json::Null => Value::Null,
        Json::Bool(b) => Value::Bool(*b),
        Json::Number(n) => serde_json::from_str(n).unwrap(),
        Json::Text(s) => Value::String(s.clone()),
        Json::Array(items) => Value::Array(items.iter().map(from_json).collect()),
        Json::Object(object) => Value::Object(from_object(object)),
    }
}

fn from_object(object: &JsonObject) -> serde_json::Map<String, Value> {
    (0..object.len())
        .map(|i| (object.name(i).to_string(), from_json(object.value(i))))
        .collect()
}

fn rewrite(schema: &mut serde_json::Map<String, Value>) {
    let mut object = to_object(schema);
    tool_schema::make_self_contained(&mut object);
    *schema = from_object(&object);
}

/// What a debug build does: an unresolved reference is a mistake in the schema.
fn make_self_contained(schema: &mut serde_json::Map<String, Value>) {
    assert!(references_resolve(&to_object(schema)), "unresolved $ref");
    rewrite(schema);
}

#[test]
fn simple_ref_is_inlined_and_defs_dropped() {
    let mut schema = obj(json(r##"{
        "type": "object",
        "properties": { "foo": { "$ref": "#/$defs/Foo" } },
        "$defs": { "Foo": { "type": "string", "minLength": 1 } }
    }"##));
    make_self_contained(&mut schema);
    assert!(!schema.contains_key("$defs"));
    assert_eq!(
        schema["properties"]["foo"],
        json(r#"{ "type": "string", "minLength": 1 }"#)
    );
}

#[test]
fn ref_site_sibling_description_wins_over_the_def_description() {
    let mut schema = obj(json(r##"{
        "type": "object",
        "properties": {
            "foo": { "$ref": "#/$defs/Foo", "description": "site" }
        },
        "$defs": { "Foo": { "type": "string", "description": "def" } }
    }"##));
    make_self_contained(&mut schema);
    let foo = &schema["properties"]["foo"];
    assert_eq!(foo["description"], json(r#""site""#));
    assert_eq!(foo["type"], json(r#""string""#));
}

#[test]
fn nested_ref_through_another_def_is_fully_inlined() {
    let mut schema = obj(json(r##"{
        "type": "object",
        "properties": { "foo": { "$ref": "#/$defs/Foo" } },
        "$defs": {
            "Foo": {
                "type": "object",
                "properties": { "bar": { "$ref": "#/$defs/Bar" } }
            },
            "Bar": { "type": "integer" }
        }
    }"##));
    make_self_contained(&mut schema);
    assert_eq!(
        schema["properties"]["foo"]["properties"]["bar"],
        json(r#"{ "type": "integer" }"#)
    );
    assert!(
        !serde_json::to_string(&schema).unwrap().contains("$ref"),
        "no $ref of any kind should survive: {schema:?}"
    );
}

#[test]
fn root_self_ref_is_inlined_against_the_root_and_terminates() {
    // A whole-document self-reference: the type used at `child` is the
    // root type itself, rather than a named `$defs` entry.
    let mut schema = obj(json(r##"{
        "type": "object",
        "properties": { "child": { "$ref": "#" } }
    }"##));
    make_self_contained(&mut schema);
    let child = &schema["properties"]["child"];
    // The root is already "on the stack" the whole call, so this one
    // occurrence is a repeat and is cut to a stub rather than expanding
    // forever.
    assert_eq!(child["type"], json(r#""object""#));
    assert!(child.get("properties").is_none());
}

#[test]
fn a_recursive_def_is_cut_to_a_type_stub_at_the_repeat() {
    let mut schema = obj(json(r##"{
        "type": "object",
        "properties": { "root_field": { "$ref": "#/$defs/Node" } },
        "$defs": {
            "Node": {
                "type": "object",
                "additionalProperties": false,
                "properties": {
                    "children": {
                        "type": "array",
                        "items": { "$ref": "#/$defs/Node" }
                    }
                }
            }
        }
    }"##));
    make_self_contained(&mut schema);
    let node = &schema["properties"]["root_field"];
    // The outer expansion keeps its full shape...
    assert_eq!(node["additionalProperties"], json(r#"false"#));
    assert!(node["properties"]["children"].is_object());
    // ...but the self-referencing occurrence one level in terminates.
    let repeat = &node["properties"]["children"]["items"];
    assert_eq!(repeat, &json(r#"{ "type": "object" }"#));
    assert!(repeat.get("properties").is_none());
}

#[test]
fn boolean_true_and_false_subschemas_are_replaced_in_schema_positions() {
    let mut schema = obj(json(r#"{
        "type": "object",
        "properties": {
            "any_list": { "type": "array", "items": true },
            "excluded": { "anyOf": [false, { "type": "string" }] }
        }
    }"#));
    make_self_contained(&mut schema);
    assert_eq!(schema["properties"]["any_list"]["items"], json(r#"{}"#));
    assert_eq!(
        schema["properties"]["excluded"]["anyOf"][0],
        json(r#"{ "not": {} }"#)
    );
}

#[test]
fn data_keywords_and_boolean_additional_properties_are_left_untouched() {
    let mut schema = obj(json(r#"{
        "type": "object",
        "properties": {
            "flag": { "enum": [true], "default": false, "const": true }
        },
        "additionalProperties": false
    }"#));
    make_self_contained(&mut schema);
    let flag = &schema["properties"]["flag"];
    assert_eq!(flag["enum"], json(r#"[true]"#));
    assert_eq!(flag["default"], json(r#"false"#));
    assert_eq!(flag["const"], json(r#"true"#));
    assert_eq!(schema["additionalProperties"], json(r#"false"#));
}

#[test]
fn a_ref_inside_a_default_value_is_left_as_literal_data() {
    let mut schema = obj(json(r#"{
        "type": "object",
        "properties": {
            "foo": {
                "type": "object",
                "default": { "$ref": "not a schema ref, just a data field" }
            }
        }
    }"#));
    make_self_contained(&mut schema);
    assert_eq!(
        schema["properties"]["foo"]["default"],
        json(r#"{ "$ref": "not a schema ref, just a data field" }"#)
    );
}

#[test]
fn every_schema_position_keyword_resolves_refs_and_replaces_booleans() {
    // Each keyword that holds schemas gets a `$ref` and a boolean subschema in
    // its own position shape (single / map / array).
    let reference = r##"{ "$ref": "#/$defs/S" }"##;
    let mut cases: Vec<(&str, String, String)> = Vec::new();
    for key in [
        "items",
        "unevaluatedItems",
        "not",
        "if",
        "then",
        "else",
        "contains",
        "propertyNames",
    ] {
        cases.push((key, reference.to_string(), "true".to_string()));
    }
    for key in ["properties", "patternProperties", "dependentSchemas"] {
        cases.push((
            key,
            format!(r#"{{ "a": {reference} }}"#),
            r#"{ "a": true }"#.to_string(),
        ));
    }
    for key in ["prefixItems", "anyOf", "oneOf", "allOf"] {
        cases.push((key, format!("[{reference}]"), "[true]".to_string()));
    }
    for key in ["additionalProperties", "unevaluatedProperties"] {
        cases.push((key, reference.to_string(), r#"{ "items": true }"#.to_string()));
    }

    for (key, ref_value, bool_value) in cases {
        let mut schema = obj(json(&format!(
            r##"{{
                "type": "object",
                "properties": {{
                    "with_ref": {{ "{key}": {ref_value} }},
                    "with_bool": {{ "{key}": {bool_value} }}
                }},
                "$defs": {{ "S": {{ "type": "string" }} }}
            }}"##
        )));
        make_self_contained(&mut schema);
        let text = serde_json::to_string(&schema).unwrap();
        assert!(
            !text.contains("$ref") && !text.contains("$defs"),
            "'{key}': ref not resolved: {text}"
        );
        assert!(
            !text.contains("true"),
            "'{key}': boolean subschema not replaced: {text}"
        );
        assert!(
            text.contains(r#"{"type":"string"}"#),
            "'{key}': def not inlined: {text}"
        );
    }
}

#[test]
fn legacy_definitions_are_resolved_and_dropped() {
    let mut schema = obj(json(r##"{
        "type": "object",
        "properties": { "foo": { "$ref": "#/definitions/Foo" } },
        "definitions": { "Foo": { "type": "boolean" } }
    }"##));
    make_self_contained(&mut schema);
    assert!(!schema.contains_key("definitions"));
    assert_eq!(schema["properties"]["foo"], json(r#"{ "type": "boolean" }"#));
}

#[test]
fn a_non_string_ref_is_kept_and_its_siblings_still_walked() {
    let mut schema = obj(json(r#"{
        "type": "object",
        "properties": {
            "foo": { "$ref": 7, "items": true }
        }
    }"#));
    make_self_contained(&mut schema);
    let foo = &schema["properties"]["foo"];
    assert_eq!(foo["$ref"], json(r#"7"#));
    assert_eq!(foo["items"], json(r#"{}"#));
}

#[test]
fn a_ref_to_no_definition_allows_everything() {
    let mut schema = obj(json(r##"{
        "type": "object",
        "properties": { "foo": { "$ref": "#/$defs/Missing", "description": "kept" } },
        "$defs": { "Other": { "type": "string" }, "Flag": true }
    }"##));
    rewrite(&mut schema);
    assert_eq!(
        schema["properties"]["foo"],
        json(r#"{ "description": "kept" }"#)
    );

    // A definition that is not an object is no definition either.
    let mut schema = obj(json(r##"{
        "items": { "$ref": "#/$defs/Flag" },
        "$defs": { "Flag": true }
    }"##));
    rewrite(&mut schema);
    assert_eq!(Value::Object(schema), json(r#"{ "items": {} }"#));
}

#[test]
fn a_definition_that_is_a_ref_itself_is_followed() {
    let mut schema = obj(json(r##"{
        "items": { "$ref": "#/$defs/A", "title": "site" },
        "$defs": {
            "A": { "$ref": "#/$defs/B", "description": "a", "title": "a" },
            "B": { "type": "integer", "description": "b", "minimum": 1 }
        }
    }"##));
    make_self_contained(&mut schema);
    assert_eq!(
        Value::Object(schema),
        json(r#"{ "items": {
            "type": "integer", "minimum": 1, "description": "a", "title": "site"
        } }"#)
    );
}

#[test]
fn definitions_that_refer_to_each_other_end_in_a_type() {
    let mut schema = obj(json(r##"{
        "properties": { "a": { "$ref": "#/$defs/A" } },
        "$defs": {
            "A": { "type": "object", "properties": { "b": { "$ref": "#/$defs/B" } } },
            "B": { "type": "array", "items": { "$ref": "#/$defs/A", "title": "again" } },
            "Loop": { "$ref": "#/$defs/Loop" }
        }
    }"##));
    make_self_contained(&mut schema);
    assert_eq!(
        Value::Object(schema),
        json(r#"{ "properties": { "a": {
            "type": "object",
            "properties": { "b": {
                "type": "array",
                "items": { "type": "object", "title": "again" }
            } }
        } } }"#)
    );

    let mut schema = obj(json(r##"{
        "items": { "$ref": "#/$defs/Loop" },
        "$defs": { "Loop": { "$ref": "#/$defs/Loop", "minimum": 3 } }
    }"##));
    make_self_contained(&mut schema);
    assert_eq!(Value::Object(schema), json(r#"{ "items": { "minimum": 3 } }"#));
}

#[test]
fn legacy_definitions_win_over_defs_of_the_same_name() {
    let mut schema = obj(json(r##"{
        "items": { "$ref": "#/$defs/A" },
        "$defs": { "A": { "type": "string" } },
        "definitions": { "A": { "type": "integer" } }
    }"##));
    make_self_contained(&mut schema);
    assert_eq!(
        Value::Object(schema),
        json(r#"{ "items": { "type": "integer" } }"#)
    );
}

#[test]
fn escaped_names_lead_to_their_definitions() {
    assert_eq!(ref_target_name("#/$defs/Name"), "Name");
    assert_eq!(ref_target_name("#"), "#");
    assert_eq!(ref_target_name(""), "");
    assert_eq!(ref_target_name("#/$defs/"), "");
    assert_eq!(ref_target_name("#/$defs/a~1b~0c"), "a/b~c");
    assert_eq!(ref_target_name("#/$defs/~01"), "~1");
    assert_eq!(ref_target_name("#/$defs/~~1~"), "~/~");
    assert_eq!(ref_target_name("#/$defs/~2"), "~2");

    let mut schema = obj(json(r##"{
        "items": { "$ref": "#/$defs/a~1b~0" },
        "$defs": { "a/b~": { "type": "null" } }
    }"##));
    make_self_contained(&mut schema);
    assert_eq!(
        Value::Object(schema),
        json(r#"{ "items": { "type": "null" } }"#)
    );
}

#[test]
fn rewriting_a_schema_again_changes_nothing() {
    let mut schema = obj(json(r##"{
        "type": "object",
        "properties": {
            "node": { "$ref": "#/$defs/Node" },
            "any": true,
            "none": false,
            "self": { "$ref": "#" }
        },
        "additionalProperties": false,
        "default": { "$ref": "#/$defs/Node", "items": true },
        "$defs": { "Node": { "type": "object", "items": { "$ref": "#/$defs/Node" } } }
    }"##));
    make_self_contained(&mut schema);
    assert_eq!(schema["properties"]["any"], json("{}"));
    assert_eq!(schema["properties"]["none"], json(r#"{ "not": {} }"#));
    assert_eq!(schema["additionalProperties"], json("false"));
    let once = schema.clone();
    make_self_contained(&mut schema);
    assert_eq!(schema, once);
}

#[test]
fn what_is_no_schema_stays() {
    // Values of the wrong shape are left alone, and so are nested booleans in
    // data.
    let text = r#"{
        "items": 7,
        "properties": [true],
        "anyOf": { "a": true },
        "not": null,
        "unevaluatedProperties": true,
        "enum": [true, { "items": true }, null, 1.5, "x"]
    }"#;
    let mut schema = obj(json(text));
    make_self_contained(&mut schema);
    assert_eq!(Value::Object(schema), json(text));
}

#[test]
fn a_tool_keeps_all_but_its_schema() {
    let schema = obj(json(r##"{
        "items": { "$ref": "#/$defs/A" },
        "$defs": { "A": { "type": "string" } }
    }"##));
    let shared = Arc::new(to_object(&schema));
    let tool = Tool {
        name: "search".to_string(),
        description: Some("Finds documents.".to_string()),
        input_schema: shared.clone(),
    };
    let tool = self_contained(tool);
    assert_eq!(tool.name, "search");
    assert_eq!(tool.description.as_deref(), Some("Finds documents."));
    assert_eq!(
        Value::Object(from_object(&tool.input_schema)),
        json(r#"{ "items": { "type": "string" } }"#)
    );
    // The schema that others hold is not changed.
    assert_eq!(from_object(&shared), schema);
}

#[test]
fn members_of_an_object_have_different_names() {
    let mut object = JsonObject::new();
    object.insert("a", Json::Bool(true));
    object.insert("b", Json::Null);
    object.insert("a", Json::Number("1.50".to_string()));
    assert_eq!(object.len(), 2);
    assert_eq!(object.name(0), "a");
    assert!(matches!(object.value(0), Json::Number(n) if n == "1.50"));
    assert!(matches!(object.get("b"), Some(Json::Null)));
    assert!(object.get("c").is_none());
    let copy = object.duplicate();
    assert!(matches!(object.remove("a"), Some(Json::Number(_))));
    assert!(object.remove("a").is_none());
    assert_eq!(object.len(), 1);
    assert_eq!(copy.len(), 2);
}

#[test]
#[should_panic]
fn an_unresolvable_ref_panics_in_debug() {
    let mut schema = obj(json(
        r##"{"type": "object", "properties": {"foo": {"$ref": "#/$defs/Missing"}}}"##,
    ));
    make_self_contained(&mut schema);
}

#[test]
fn references_resolve_if_those_that_are_met_have_definitions() {
    let cases = [
        (r##"{}"##, true),
        (r##"{"$ref": "#"}"##, true),
        (r##"{"$ref": "#/$defs/A", "$defs": {"A": {"type": "string"}}}"##, true),
        (r##"{"$ref": "#/definitions/A", "definitions": {"A": {}}}"##, true),
        (r##"{"items": {"$ref": "#/$defs/A"}, "$defs": {"A": {"items": {"$ref": "#/$defs/A"}}}}"##, true),
        // Neither a definition that nothing refers to nor data is looked at.
        (r##"{"$defs": {"A": {"$ref": "#/$defs/B"}}}"##, true),
        (r##"{"default": {"$ref": "#/$defs/B"}, "enum": [{"$ref": "#/$defs/B"}]}"##, true),
        (r##"{"items": {"$ref": 1}}"##, true),
        (r##"{"additionalProperties": true}"##, true),
        (r##"{"$ref": "#/$defs/A"}"##, false),
        (r##"{"$ref": "#/$defs/A", "$defs": {"A": true}}"##, false),
        (r##"{"items": {"$ref": "#/$defs/A"}, "$defs": {"A": {"$ref": "#/$defs/B"}}}"##, false),
        (r##"{"properties": {"x": {}, "y": {"$ref": "#/$defs/A"}}}"##, false),
        (r##"{"anyOf": [{}, {"not": {"$ref": "#/$defs/A"}}]}"##, false),
        (r##"{"additionalProperties": {"$ref": "#/$defs/A"}}"##, false),
        (r##"{"$ref": "#", "items": {"$ref": "#/$defs/A"}}"##, false),
    ];
    for (text, expected) in cases {
        assert_eq!(references_resolve(&to_object(&obj(json(text)))), expected, "{text}");
    }
}
