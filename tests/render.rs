use schema_extractor::hierarchy::resolve_sealed_hierarchies;
use schema_extractor::json::JsonValue;
use schema_extractor::parser::parse_declarations;
use schema_extractor::render::{render_document, render_property};
use schema_extractor::schema::{generate_json_schema, Primitive, PropertySchema, Shape, TypeSchema};
use schema_extractor::types::ParsingContext;

const TEXT: &str = r#"
enum class Platform(val v: String) : SchemaEnum {
    JVM("jvm"),
    OLD("old", outdated = true),
}

class Module : SchemaNode() {
    @ModifierAware
    val dependencies by nullableValue<List<Dependency>>()
    val targets by value<Map<String, Platform>>()
}

sealed class Dependency : SchemaNode() {
}

class ExternalDependency : Dependency() {
    val coordinates by value<String>()
}

class LocalDependency : Dependency() {
    val path by value<Path>()
}
"#;

fn rendered() -> JsonValue {
    let mut context = ParsingContext::new(false);
    parse_declarations(TEXT, &mut context).unwrap();
    resolve_sealed_hierarchies(&mut context);
    render_document(&generate_json_schema(&context, "Module").unwrap())
}

fn get<'a>(v: &'a JsonValue, key: &str) -> &'a JsonValue {
    match v {
        JsonValue::Object(members) => &members.iter().rev().find(|(k, _)| k == key).unwrap().1,
        other => panic!("not an object: {:?}", other),
    }
}

fn text(v: &JsonValue) -> &str {
    match v {
        JsonValue::Str(s) => s,
        other => panic!("not a string: {:?}", other),
    }
}

fn items(v: &JsonValue) -> &Vec<JsonValue> {
    match v {
        JsonValue::Array(a) => a,
        other => panic!("not an array: {:?}", other),
    }
}

fn keys(v: &JsonValue) -> Vec<String> {
    match v {
        JsonValue::Object(members) => members.iter().map(|(k, _)| k.clone()).collect(),
        other => panic!("not an object: {:?}", other),
    }
}

#[test]
fn document_header() {
    let doc = rendered();
    assert_eq!(text(get(&doc, "$schema")), "https://json-schema.org/draft/2020-12/schema");
    assert_eq!(text(get(&doc, "$id")), "Module.json");
    assert_eq!(text(get(&doc, "title")), "Module schema");
    assert_eq!(text(get(&doc, "type")), "object");
    let all = items(get(&doc, "allOf"));
    assert_eq!(all.len(), 1);
    assert_eq!(text(get(&all[0], "$ref")), "#/$defs/Module");
}

#[test]
fn sealed_definition_is_any_of_references() {
    let doc = rendered();
    let defs = get(&doc, "$defs");
    let dep = get(defs, "Dependency");
    assert_eq!(keys(dep), vec!["anyOf".to_string()]);
    let alts = items(get(dep, "anyOf"));
    let refs: Vec<&str> = alts.iter().map(|a| text(get(a, "$ref"))).collect();
    assert_eq!(refs, vec!["#/$defs/ExternalDependency", "#/$defs/LocalDependency"]);
    get(defs, "ExternalDependency");
    get(defs, "LocalDependency");
}

#[test]
fn modifier_aware_pattern_key() {
    let doc = rendered();
    let module = get(get(&doc, "$defs"), "Module");
    assert!(keys(get(module, "properties")).contains(&"dependencies".to_string()));
    assert_eq!(
        keys(get(module, "patternProperties")),
        vec!["^(test-)?dependencies(@.+)?$".to_string()]
    );
    assert!(matches!(get(module, "additionalProperties"), JsonValue::Bool(false)));
}

#[test]
fn map_property_is_array_of_single_key_objects() {
    let doc = rendered();
    let targets = get(get(get(get(&doc, "$defs"), "Module"), "properties"), "targets");
    assert_eq!(text(get(targets, "type")), "array");
    assert!(matches!(get(targets, "uniqueItems"), JsonValue::Bool(true)));
    let item = get(targets, "items");
    assert_eq!(text(get(item, "type")), "object");
    let patterns = get(item, "patternProperties");
    assert_eq!(keys(patterns), vec!["^[^@+:]+$".to_string()]);
    let values: Vec<&str> = items(get(get(patterns, "^[^@+:]+$"), "enum")).iter().map(text).collect();
    assert_eq!(values, vec!["jvm"]);
}

#[test]
fn property_documentation_and_restrictions() {
    let p = PropertySchema {
        shape: Shape::Single,
        base: TypeSchema::Unknown("Widget".to_string()),
        description: Some("A widget (see docs).".to_string()),
        title: Some("A widget see docs".to_string()),
        platforms: vec!["JVM".to_string()],
        product_types: vec![],
    };
    let v = render_property(&p);
    assert_eq!(text(get(&v, "type")), "string");
    assert_eq!(text(get(&v, "description")), "A widget (see docs).");
    assert_eq!(text(get(&v, "title")), "A widget see docs");
    let meta = get(&v, "x-intellij-metadata");
    assert_eq!(keys(meta), vec!["platforms".to_string()]);
    let listed = render_property(&PropertySchema {
        shape: Shape::List,
        base: TypeSchema::Primitive(Primitive::Int),
        description: None,
        title: None,
        platforms: vec![],
        product_types: vec![],
    });
    assert_eq!(keys(&listed), vec!["type", "items", "uniqueItems"]);
    assert_eq!(text(get(get(&listed, "items"), "type")), "integer");
}

