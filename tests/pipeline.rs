use schema_extractor::hierarchy::resolve_sealed_hierarchies;
use schema_extractor::parser::{
    extract_class_body, is_admitted_parent, parse_classes, parse_declarations, parse_enums,
    parse_properties, parse_type_info, ParseError,
};
use schema_extractor::scan::{extract_doc_string, parse_annotations};
use schema_extractor::schema::{
    build_enum_schema, generate_json_schema, pattern_for, root_type_for, short_doc, Definition,
    ObjectSchema, Primitive, PropertySchema, SchemaDocument, SchemaError, Shape, TypeSchema,
};
use schema_extractor::types::{ParsingContext, Property};

const SOURCE: &str = r#"
@SchemaDoc("Target platform")
enum class Platform(override val schemaValue: String, val outdated: Boolean = false) : SchemaEnum {
    @SchemaDoc("The JVM")
    JVM("jvm"),
    ANDROID("android"),
    IOS_ARM32("iosArm32", outdated = true),
}

abstract class Base : SchemaNode() {
    @SchemaDoc("Platforms to build for")
    val platforms by value<List<Platform>>()

    @ModifierAware
    val dependencies by nullableValue<List<Dependency>>()
}

@SchemaDoc("A module")
class Module : Base() {
    val aliases by nullableValue<Map<String, String>>()
    val product by value<String>()
}

sealed class Dependency : SchemaNode() {
}

class ExternalDependency : Dependency() {
    val coordinates by value<String>()
}

class LocalDependency : Dependency() {
    val path by value<Path>()
}

class Helper : Builder() {
    val ignored by value<String>()
}
"#;

fn graph(text: &str) -> ParsingContext {
    let mut context = ParsingContext::new(false);
    parse_declarations(text, &mut context).unwrap();
    resolve_sealed_hierarchies(&mut context);
    context
}

fn document(text: &str, root: &str) -> SchemaDocument {
    generate_json_schema(&graph(text), root).unwrap()
}

fn definition<'a>(doc: &'a SchemaDocument, name: &str) -> &'a Definition {
    doc.definitions.get(name).unwrap()
}

fn object<'a>(doc: &'a SchemaDocument, name: &str) -> &'a ObjectSchema {
    match definition(doc, name) {
        Definition::Object(o) => o,
        Definition::Variants(_) => panic!("{} is sealed", name),
    }
}

fn property<'a>(o: &'a ObjectSchema, name: &str) -> &'a PropertySchema {
    &o.properties.iter().find(|(n, _)| n == name).unwrap().1
}

fn names(v: &[(String, PropertySchema)]) -> Vec<String> {
    v.iter().map(|(n, _)| n.clone()).collect()
}

fn prop(name: &str, annotations: &[&str]) -> Property {
    Property {
        name: name.to_string(),
        elem_type: "String".to_string(),
        doc: None,
        is_nullable: false,
        is_list: false,
        is_map: false,
        default_value: None,
        annotations: annotations.iter().map(|a| a.to_string()).collect(),
    }
}

#[test]
fn extract_class_body_counts_nested_braces() {
    let body = extract_class_body("class A : Base() { val x = f { 1 }; { } } tail").unwrap();
    assert_eq!(body, " val x = f { 1 }; { } ");
}

#[test]
fn extract_class_body_without_brace_fails() {
    assert_eq!(extract_class_body("class A"), Err(ParseError::NoOpeningBrace));
}

#[test]
fn extract_class_body_unbalanced_fails() {
    assert_eq!(extract_class_body("class A { { }"), Err(ParseError::UnmatchedBraces));
}

#[test]
fn parse_type_info_nullable_list() {
    assert_eq!(parse_type_info("List<String>?"), ("String".to_string(), true, true, false));
}

#[test]
fn parse_type_info_map_takes_value_type() {
    assert_eq!(
        parse_type_info("Map<String, Platform>"),
        ("Platform".to_string(), false, false, true)
    );
}

#[test]
fn parse_type_info_trims_plain_type() {
    assert_eq!(parse_type_info("  Int \n"), ("Int".to_string(), false, false, false));
    assert_eq!(parse_type_info("Path??"), ("Path".to_string(), true, false, false));
}

#[test]
fn short_doc_strips_markers() {
    assert_eq!(short_doc("  The platforms (see docs). [Read more]"), "The platforms see docs");
    assert_eq!(short_doc("Ends with dots..."), "Ends with dots");
    assert_eq!(short_doc(""), "");
}

#[test]
fn annotation_values_split_and_trimmed() {
    assert_eq!(
        Property::extract_annotation_values("PlatformSpecific(JVM, ANDROID , ,IOS)"),
        vec!["JVM".to_string(), "ANDROID".to_string(), "IOS".to_string()]
    );
}

#[test]
fn annotation_values_without_parentheses() {
    assert!(Property::extract_annotation_values("Shorthand").is_empty());
    assert!(Property::extract_annotation_values("A)b(").is_empty());
}

#[test]
fn property_annotation_queries() {
    let p = prop(
        "x",
        &["HiddenFromCompletion", "PlatformSpecific(JVM, ANDROID)", "ProductTypeSpecific(LIB)"],
    );
    assert!(p.has_annotation("HiddenFromCompletion"));
    assert!(p.is_hidden());
    assert!(!p.is_shorthand());
    assert!(!p.is_modifier_aware());
    assert_eq!(p.get_platform_specific(), vec!["JVM".to_string(), "ANDROID".to_string()]);
    assert_eq!(p.get_product_type_specific(), vec!["LIB".to_string()]);
    let q = prop("y", &["Shorthand", "ModifierAware"]);
    assert!(q.is_shorthand());
    assert!(q.is_modifier_aware());
    assert!(q.get_platform_specific().is_empty());
}

#[test]
fn parse_annotations_dedups_and_strips_at() {
    let tags = parse_annotations("@Shorthand @PlatformSpecific(JVM) @Shorthand\n").unwrap();
    assert_eq!(tags, vec!["Shorthand".to_string(), "PlatformSpecific(JVM)".to_string()]);
}

#[test]
fn extract_doc_string_reads_quoted_text() {
    assert_eq!(extract_doc_string(r#"@SchemaDoc("Hello world")"#).unwrap(), "Hello world");
    assert_eq!(extract_doc_string("@Other(1)").unwrap(), "");
}

#[test]
fn parse_properties_reads_declarations() {
    let props = parse_properties(
        "\n@SchemaDoc(\"Name\") @Shorthand\nval name: String by value()\nval count by nullableValue<Int>()\nval plain by nested()\n",
    )
    .unwrap();
    assert_eq!(props.len(), 3);
    assert_eq!(props[0].name, "name");
    assert_eq!(props[0].elem_type, "String");
    assert_eq!(props[0].doc, Some("Name".to_string()));
    assert!(props[0].annotations.contains(&"Shorthand".to_string()));
    assert!(!props[0].is_nullable);
    assert_eq!(props[1].elem_type, "Int");
    assert!(props[1].is_nullable);
    assert_eq!(props[2].elem_type, "String");
}

#[test]
fn parse_enums_reads_entries() {
    let mut context = ParsingContext::new(false);
    parse_enums(SOURCE, &mut context).unwrap();
    assert_eq!(context.enums.len(), 1);
    let e = &context.enums[0];
    assert_eq!(e.name, "Platform");
    assert_eq!(e.doc, Some("Target platform".to_string()));
    assert!(!e.is_order_sensitive);
    let values: Vec<&str> = e.entries.iter().map(|x| x.schema_value.as_str()).collect();
    assert_eq!(values, vec!["jvm", "android", "iosArm32"]);
    let outdated: Vec<bool> = e.entries.iter().map(|x| x.is_outdated).collect();
    assert_eq!(outdated, vec![false, false, true]);
    assert_eq!(e.entries[0].doc, Some("The JVM".to_string()));
    assert_eq!(e.entries[1].doc, None);
}

#[test]
fn parse_enums_order_sensitive() {
    let mut context = ParsingContext::new(false);
    parse_enums(
        "@EnumOrderSensitive\nenum class Level(val v: String) : SchemaEnum {\n LOW(\"low\"),\n HIGH(\"high\"),\n}",
        &mut context,
    )
    .unwrap();
    assert!(context.enums[0].is_order_sensitive);
    let schema = build_enum_schema(&context.enums[0]);
    assert!(schema.order_sensitive);
    assert_eq!(schema.values, vec!["low".to_string(), "high".to_string()]);
    assert!(schema.metadata.is_empty());
}

#[test]
fn parse_classes_admission_filter() {
    let mut context = ParsingContext::new(false);
    parse_classes(SOURCE, &mut context).unwrap();
    let names: Vec<&str> = context.classes.values().map(|c| c.name.as_str()).collect();
    assert_eq!(
        names,
        vec!["Base", "Module", "Dependency", "ExternalDependency", "LocalDependency"]
    );
    assert!(is_admitted_parent("AndroidSettings"));
    assert!(!is_admitted_parent("Builder"));
    let module = &context.classes[1];
    assert_eq!(module.parent, Some("Base".to_string()));
    assert_eq!(module.doc, Some("A module".to_string()));
    assert_eq!(context.classes[0].parent, None);
    assert!(context.classes[2].is_sealed);
}

#[test]
fn parse_classes_unbalanced_body_is_error() {
    let mut context = ParsingContext::new(false);
    let r = parse_classes("class Broken : Base() {\n val x by value<Int>() {\n", &mut context);
    assert_eq!(r, Err(ParseError::UnmatchedBraces));
    assert!(context.classes.is_empty());
}

#[test]
fn later_declaration_replaces_earlier() {
    let mut context = ParsingContext::new(false);
    parse_declarations("class A : Base() {\n val x by value<Int>()\n}", &mut context).unwrap();
    parse_declarations("class A : Base() {\n val y by value<Int>()\n}", &mut context).unwrap();
    assert_eq!(context.classes.len(), 1);
    assert_eq!(context.classes[0].properties[0].name, "y");
}

#[test]
fn resolve_fills_sealed_subclasses() {
    let context = graph(SOURCE);
    let dep = context.classes.values().find(|c| c.name == "Dependency").unwrap();
    assert_eq!(
        dep.subclasses,
        vec!["ExternalDependency".to_string(), "LocalDependency".to_string()]
    );
    let base = context.classes.values().find(|c| c.name == "Base").unwrap();
    assert!(base.subclasses.is_empty());
}

#[test]
fn module_scenario() {
    let doc = document(SOURCE, "Module");
    assert_eq!(doc.root, "Module");
    assert_eq!(doc.definitions.get_index(0).unwrap().0, "Module");
    let module = object(&doc, "Module");
    let aliases = property(module, "aliases");
    assert_eq!(aliases.shape, Shape::KeyedList);
    assert!(matches!(aliases.base, TypeSchema::Primitive(Primitive::Str)));
    let platforms = property(module, "platforms");
    assert_eq!(platforms.shape, Shape::List);
    match &platforms.base {
        TypeSchema::Enumeration(e) => {
            assert_eq!(e.values, vec!["jvm".to_string(), "android".to_string()]);
            assert_eq!(e.metadata, vec![("jvm".to_string(), "The JVM".to_string())]);
        }
        other => panic!("not an enum: {:?}", other),
    }
    assert_eq!(platforms.description, Some("Platforms to build for".to_string()));
    assert_eq!(platforms.title, Some("Platforms to build for".to_string()));
    assert!(module.required.contains(&"platforms".to_string()));
    assert!(!module.required.contains(&"aliases".to_string()));
    assert_eq!(module.title, Some("A module".to_string()));
}

#[test]
fn sealed_dependency_scenario() {
    let doc = document(SOURCE, "Module");
    match definition(&doc, "Dependency") {
        Definition::Variants(v) => assert_eq!(
            v,
            &vec!["ExternalDependency".to_string(), "LocalDependency".to_string()]
        ),
        Definition::Object(_) => panic!("Dependency is not sealed"),
    }
    object(&doc, "ExternalDependency");
    object(&doc, "LocalDependency");
}

#[test]
fn modifier_aware_scenario() {
    let doc = document(SOURCE, "Module");
    let module = object(&doc, "Module");
    assert!(names(&module.properties).contains(&"dependencies".to_string()));
    assert_eq!(
        names(&module.pattern_properties),
        vec!["^(test-)?dependencies(@.+)?$".to_string()]
    );
    assert_eq!(pattern_for(&"test-sources".to_string()), "^test-sources(@.+)?$");
}

#[test]
fn optional_property_not_required() {
    let doc = document(SOURCE, "Module");
    let module = object(&doc, "Module");
    assert!(!module.required.contains(&"aliases".to_string()));
    assert!(!module.required.contains(&"dependencies".to_string()));
    assert_eq!(module.required, vec!["product".to_string(), "platforms".to_string()]);
}

#[test]
fn all_required_list_is_omitted() {
    let doc = document(SOURCE, "Module");
    assert!(object(&doc, "ExternalDependency").required.is_empty());
}

#[test]
fn sealed_alternatives_count() {
    let context = graph(SOURCE);
    let doc = generate_json_schema(&context, "Dependency").unwrap();
    let dep = context.classes.values().find(|c| c.name == "Dependency").unwrap();
    match doc.definitions.get_index(0).unwrap().1 {
        Definition::Variants(v) => assert_eq!(v.len(), dep.subclasses.len()),
        Definition::Object(_) => panic!("Dependency is not sealed"),
    }
    assert_eq!(doc.definitions.len(), 3);
}

#[test]
fn enum_values_exclude_outdated() {
    let context = graph(SOURCE);
    let schema = build_enum_schema(&context.enums[0]);
    let outdated = context.enums[0].entries.iter().filter(|e| e.is_outdated).count();
    assert_eq!(schema.values.len(), context.enums[0].entries.len() - outdated);
    assert!(!schema.values.contains(&"iosArm32".to_string()));
}

#[test]
fn pipeline_is_idempotent() {
    let first = format!("{:?}", document(SOURCE, "Module"));
    let second = format!("{:?}", document(SOURCE, "Module"));
    assert_eq!(first, second);
}

#[test]
fn property_order_own_then_parent() {
    let doc = document(SOURCE, "Module");
    assert_eq!(
        names(&object(&doc, "Module").properties),
        vec!["aliases", "product", "platforms", "dependencies"]
    );
}

#[test]
fn three_level_inheritance_nearest_wins() {
    let text = "class A : Base() {\n val a by value<Int>()\n val shared by value<Int>()\n}\nclass B : A() {\n val b by value<Int>()\n val shared by nullableValue<String>()\n}\nclass Base : SchemaNode() {\n}\nclass C : B() {\n val c by value<Int>()\n}\n";
    let mut context = ParsingContext::new(false);
    parse_declarations(text, &mut context).unwrap();
    // A, B and C only pass the filter when their parent is admitted: rename to fit it.
    assert!(context.classes.values().all(|c| c.name != "B"));
    let text = text.replace(": A()", ": ASettings()").replace("class A ", "class ASettings ")
        .replace(": B()", ": BSettings()").replace("class B ", "class BSettings ");
    let doc = document(&text, "C");
    let c = object(&doc, "C");
    assert_eq!(names(&c.properties), vec!["c", "b", "shared", "a"]);
    let shared = property(c, "shared");
    assert!(matches!(shared.base, TypeSchema::Primitive(Primitive::Str)));
}

#[test]
fn map_of_enum_property() {
    let text = "enum class Platform(val v: String) : SchemaEnum {\n JVM(\"jvm\"),\n}\nclass Module : SchemaNode() {\n val targets by value<Map<String, Platform>>()\n}\n";
    let doc = document(text, "Module");
    let targets = property(object(&doc, "Module"), "targets");
    assert_eq!(targets.shape, Shape::KeyedList);
    match &targets.base {
        TypeSchema::Enumeration(e) => assert_eq!(e.values, vec!["jvm".to_string()]),
        other => panic!("not an enum: {:?}", other),
    }
}

#[test]
fn root_not_found_error() {
    let context = graph(SOURCE);
    assert!(matches!(
        generate_json_schema(&context, "Project"),
        Err(SchemaError::RootNotFound)
    ));
}

#[test]
fn unknown_and_wrapped_types() {
    let text = "enum class Mode(val v: String) : SchemaEnum {\n ON(\"on\"),\n}\nclass Module : SchemaNode() {\n val mode by value<TraceableEnum<Mode>>()\n val odd by value<Widget>()\n val size by value<Double>()\n val flag: Boolean by value()\n}\n";
    let doc = document(text, "Module");
    let module = object(&doc, "Module");
    assert!(matches!(&property(module, "mode").base, TypeSchema::Enumeration(e) if e.values == vec!["on".to_string()]));
    assert!(matches!(&property(module, "odd").base, TypeSchema::Unknown(n) if n == "Widget"));
    assert!(matches!(property(module, "size").base, TypeSchema::Primitive(Primitive::Num)));
    assert!(matches!(property(module, "flag").base, TypeSchema::Primitive(Primitive::Bool)));
}

#[test]
fn hidden_and_restricted_properties() {
    let text = "class Module : SchemaNode() {\n @HiddenFromCompletion\n val secret by value<Int>()\n @PlatformSpecific(JVM, ANDROID) @ProductTypeSpecific(LIB)\n val jvm by nullableValue<Int>()\n}\n";
    let doc = document(text, "Module");
    let module = object(&doc, "Module");
    assert_eq!(names(&module.properties), vec!["jvm"]);
    let jvm = property(module, "jvm");
    assert_eq!(jvm.platforms, vec!["JVM".to_string(), "ANDROID".to_string()]);
    assert_eq!(jvm.product_types, vec!["LIB".to_string()]);
    assert!(matches!(jvm.base, TypeSchema::Primitive(Primitive::Int)));
}

#[test]
fn root_type_for_defaults() {
    assert_eq!(root_type_for("module"), "Module");
    assert_eq!(root_type_for("template"), "Template");
    assert_eq!(root_type_for("project"), "Project");
    assert_eq!(root_type_for("other"), "Module");
}

#[test]
fn sealed_without_subclasses_has_no_alternatives() {
    let text = "class Module : SchemaNode() {\n val kind by value<Kind>()\n}\nsealed class Kind : SchemaNode() {\n val ignored by value<Int>()\n}\n";
    let doc = document(text, "Module");
    match definition(&doc, "Kind") {
        Definition::Variants(v) => assert!(v.is_empty()),
        Definition::Object(_) => panic!("a sealed class is a union"),
    }
}

#[test]
fn unicode_white_space_is_trimmed() {
    assert_eq!(
        parse_type_info("\u{3000}Int\u{00A0}\u{2009}"),
        ("Int".to_string(), false, false, false)
    );
}

#[test]
fn parse_classes_skips_unadmitted_parent() {
    let mut context = ParsingContext::new(false);
    parse_classes(
        "class Helper : Foo() { }\nclass Module : Base() { val name by value<String>() }",
        &mut context,
    )
    .unwrap();
    assert_eq!(context.classes.len(), 1);
    let module = context.classes.get("Module").unwrap();
    assert_eq!(module.parent, Some("Base".to_string()));
    assert!(!module.is_sealed);
    assert!(module.subclasses.is_empty());
    assert_eq!(module.properties.len(), 1);
    let p = &module.properties[0];
    assert_eq!(p.name, "name");
    assert_eq!(p.elem_type, "String");
    assert!(!p.is_nullable && !p.is_list && !p.is_map);
}

#[test]
fn parse_enums_two_entries() {
    let mut context = ParsingContext::new(false);
    parse_enums(
        "enum class Platform(override val schemaValue: String) : SchemaEnum { JVM(\"jvm\"), IOS(\"ios\") }",
        &mut context,
    )
    .unwrap();
    let e = context.enums.get("Platform").unwrap();
    let names: Vec<&str> = e.entries.iter().map(|x| x.name.as_str()).collect();
    assert_eq!(names, vec!["JVM", "IOS"]);
    let values: Vec<&str> = e.entries.iter().map(|x| x.schema_value.as_str()).collect();
    assert_eq!(values, vec!["jvm", "ios"]);
    assert!(e.entries.iter().all(|x| !x.is_outdated));
    assert!(!e.is_order_sensitive);
    assert_eq!(e.doc, None);
    assert!(context.classes.is_empty());
}

#[test]
fn parse_properties_modifier_aware_with_doc() {
    let props = parse_properties(
        "@ModifierAware @SchemaDoc(\"Deps\") val dependencies by nullableValue<List<String>>()",
    )
    .unwrap();
    assert_eq!(props.len(), 1);
    let p = &props[0];
    assert_eq!(p.name, "dependencies");
    assert_eq!(p.elem_type, "String");
    assert!(p.is_list);
    assert!(p.is_nullable);
    assert_eq!(p.doc, Some("Deps".to_string()));
    assert!(p.is_modifier_aware());
}

#[test]
fn definitions_follow_breadth_first_order() {
    let doc = document(SOURCE, "Module");
    let names: Vec<&str> = doc.definitions.keys().map(|k| k.as_str()).collect();
    assert_eq!(names, vec!["Module", "Dependency", "ExternalDependency", "LocalDependency"]);
}
