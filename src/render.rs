//! Renders the schema model as a JSON Schema document.
use vstd::prelude::*;

use vstd::string::StringExecFns;

use crate::json::{json_of, Json, JsonValue};
use crate::schema::{
    definition_map_get, definition_map_len, definitions_view, entries_view, Definition, DefinitionView, EnumSchema, EnumSchemaView,
    ObjectSchema, ObjectSchemaView, Primitive, PropertySchema, PropertySchemaView,
    SchemaDocument, Shape, TypeSchema, TypeSchemaView,
};

verus! {

/// The JSON form of a list of strings.
pub open spec fn strings_json(v: Seq<Seq<char>>) -> Json {
    Json::Array(v.map_values(|s: Seq<char>| Json::Str(s)))
}

/// A reference to the definition named `n`.
pub open spec fn ref_json(n: Seq<char>) -> Json {
    Json::Object(seq![("$ref"@, Json::Str("#/$defs/"@ + n))])
}

/// Members present only when `c` holds.
pub open spec fn member_if(c: bool, k: Seq<char>, v: Json) -> Seq<(Seq<char>, Json)> {
    if c {
        seq![(k, v)]
    } else {
        Seq::empty()
    }
}

/// The JSON form of an enum's allowed values.
pub open spec fn enum_json(e: EnumSchemaView) -> Json {
    Json::Object(
        seq![("enum"@, strings_json(e.values))] + member_if(
            e.metadata.len() > 0,
            "x-intellij-enum-metadata"@,
            Json::Object(e.metadata.map_values(|p: (Seq<char>, Seq<char>)| (p.0, Json::Str(p.1)))),
        ) + member_if(e.order_sensitive, "x-intellij-enum-order-sensitive"@, Json::Bool(true)),
    )
}

/// The JSON type name of a primitive.
pub open spec fn primitive_name(p: Primitive) -> Seq<char> {
    match p {
        Primitive::Str => "string"@,
        Primitive::Int => "integer"@,
        Primitive::Bool => "boolean"@,
        Primitive::Num => "number"@,
    }
}

/// The JSON form of an element type.
pub open spec fn type_json(t: TypeSchemaView) -> Json {
    match t {
        TypeSchemaView::Enumeration(e) => enum_json(e),
        TypeSchemaView::Ref(n) => ref_json(n),
        TypeSchemaView::Primitive(p) => Json::Object(seq![("type"@, Json::Str(primitive_name(p)))]),
        TypeSchemaView::Unknown(n) => Json::Object(
            seq![("type"@, Json::Str("string"@)), ("description"@, Json::Str("Type: "@ + n))],
        ),
    }
}

/// The members of a property's schema before its documentation: the element
/// schema, or an array of distinct elements, or an array of distinct
/// single-key objects whose key is free of `@`, `+` and `:`.
pub open spec fn shaped_members(shape: Shape, base: Json) -> Seq<(Seq<char>, Json)> {
    match shape {
        Shape::Single => match base {
            Json::Object(m) => m,
            _ => Seq::empty(),
        },
        Shape::List => seq![
            ("type"@, Json::Str("array"@)),
            ("items"@, base),
            ("uniqueItems"@, Json::Bool(true)),
        ],
        Shape::KeyedList => seq![
            ("type"@, Json::Str("array"@)),
            (
                "items"@,
                Json::Object(
                    seq![
                        ("type"@, Json::Str("object"@)),
                        ("patternProperties"@, Json::Object(seq![("^[^@+:]+$"@, base)])),
                    ],
                ),
            ),
            ("uniqueItems"@, Json::Bool(true)),
        ],
    }
}

/// The platform and product-type restrictions of a property.
pub open spec fn metadata_json(p: PropertySchemaView) -> Json {
    Json::Object(
        member_if(p.platforms.len() > 0, "platforms"@, strings_json(p.platforms)) + member_if(
            p.product_types.len() > 0,
            "productTypes"@,
            strings_json(p.product_types),
        ),
    )
}

/// The JSON form of a property's schema. A later member replaces an earlier
/// one of the same key.
pub open spec fn property_json(p: PropertySchemaView) -> Json {
    Json::Object(
        shaped_members(p.shape, type_json(p.base)) + member_if(
            p.description is Some,
            "description"@,
            Json::Str(p.description->0),
        ) + member_if(p.title is Some, "title"@, Json::Str(p.title->0)) + member_if(
            p.platforms.len() > 0 || p.product_types.len() > 0,
            "x-intellij-metadata"@,
            metadata_json(p),
        ),
    )
}

/// Keyed property schemas as one JSON object.
pub open spec fn keyed_json(es: Seq<(Seq<char>, PropertySchemaView)>) -> Json {
    Json::Object(es.map_values(|e: (Seq<char>, PropertySchemaView)| (e.0, property_json(e.1))))
}

/// The JSON form of an object definition.
pub open spec fn object_json(o: ObjectSchemaView) -> Json {
    Json::Object(
        seq![("type"@, Json::Str("object"@)), ("additionalProperties"@, Json::Bool(false))]
            + member_if(o.properties.len() > 0, "properties"@, keyed_json(o.properties))
            + member_if(
            o.pattern_properties.len() > 0,
            "patternProperties"@,
            keyed_json(o.pattern_properties),
        ) + member_if(o.required.len() > 0, "required"@, strings_json(o.required)) + member_if(
            o.title is Some,
            "title"@,
            Json::Str(o.title->0),
        ),
    )
}

/// The JSON form of a definition: any one of the subclasses' definitions, or an object.
pub open spec fn definition_json(d: DefinitionView) -> Json {
    match d {
        DefinitionView::Variants(ns) => Json::Object(
            seq![("anyOf"@, Json::Array(ns.map_values(|n: Seq<char>| ref_json(n))))],
        ),
        DefinitionView::Object(o) => object_json(o),
    }
}

/// The JSON Schema document of a root and its definitions.
pub open spec fn document_json(root: Seq<char>, defs: Seq<(Seq<char>, DefinitionView)>) -> Json {
    Json::Object(
        seq![
            ("$schema"@, Json::Str("https://json-schema.org/draft/2020-12/schema"@)),
            ("$id"@, Json::Str(root + ".json"@)),
            ("title"@, Json::Str(root + " schema"@)),
            ("type"@, Json::Str("object"@)),
            ("allOf"@, Json::Array(seq![ref_json(root)])),
            (
                "$defs"@,
                Json::Object(
                    defs.map_values(|e: (Seq<char>, DefinitionView)| (e.0, definition_json(e.1))),
                ),
            ),
        ],
    )
}

fn text(s: &str) -> (r: JsonValue)
    ensures
        json_of(r) == Json::Str(s@),
{
    JsonValue::Str(String::from_str(s))
}

fn strings_value(v: &Vec<String>) -> (r: JsonValue)
    ensures
        json_of(r) == strings_json(v.deep_view()),
{
    let mut out: Vec<JsonValue> = Vec::new();
    let mut i: usize = 0;
    while i < v.len()
        invariant
            i <= v@.len(),
            out@.len() == i,
            forall|k: int| 0 <= k < i ==> json_of(#[trigger] out@[k]) == Json::Str(v@[k]@),
        decreases v@.len() - i,
    {
        out.push(JsonValue::Str(v[i].clone()));
        i = i + 1;
    }
    proof {
        array_items(out);
    }
    assert(Seq::new(out@.len(), |i: int| json_of(out@[i])) =~= v.deep_view().map_values(|s: Seq<char>| Json::Str(s)));
    JsonValue::Array(out)
}

fn reference(n: &String) -> (r: JsonValue)
    ensures
        json_of(r) == ref_json(n@),
{
    let target = String::from_str("#/$defs/").concat(n.as_str());
    let mut m: Vec<(String, JsonValue)> = Vec::new();
    m.push((String::from_str("$ref"), JsonValue::Str(target)));
    let r = JsonValue::Object(m);
    proof {
        object_members(m);
    }
    assert(members_json(m@) =~= seq![("$ref"@, Json::Str("#/$defs/"@ + n@))]);
    r
}

/// The members of an object as plain values.
pub open spec fn members_json(m: Seq<(String, JsonValue)>) -> Seq<(Seq<char>, Json)> {
    Seq::new(m.len(), |i: int| (m[i].0@, json_of(m[i].1)))
}

proof fn object_members(m: Vec<(String, JsonValue)>)
    ensures
        json_of(JsonValue::Object(m)) == Json::Object(members_json(m@)),
{
    let j = json_of(JsonValue::Object(m));
    let s = j->Object_0;
    assert(s.len() == m@.len());
    assert forall|i: int| 0 <= i < s.len() implies #[trigger] s[i] == members_json(m@)[i] by {}
    assert(s =~= members_json(m@));
}

proof fn array_items(a: Vec<JsonValue>)
    ensures
        json_of(JsonValue::Array(a)) == Json::Array(Seq::new(a@.len(), |i: int| json_of(a@[i]))),
{
    let s = json_of(JsonValue::Array(a))->Array_0;
    assert(s.len() == a@.len());
    assert forall|i: int| 0 <= i < s.len() implies #[trigger] s[i] == json_of(a@[i]) by {}
    assert(s =~= Seq::new(a@.len(), |i: int| json_of(a@[i])));
}

fn push_member(m: &mut Vec<(String, JsonValue)>, k: &str, v: JsonValue)
    ensures
        members_json(final(m)@) == members_json(old(m)@).push((k@, json_of(v))),
{
    m.push((String::from_str(k), v));
    assert(members_json(m@) =~= members_json(old(m)@).push((k@, json_of(v))));
}

/// The JSON form of an enum's allowed values.
pub fn render_enum(e: &EnumSchema) -> (r: JsonValue)
    ensures
        json_of(r) == enum_json(e@),
{
    let mut m: Vec<(String, JsonValue)> = Vec::new();
    assert(members_json(m@) =~= Seq::<(Seq<char>, Json)>::empty());
    push_member(&mut m, "enum", strings_value(&e.values));
    let ghost m1 = members_json(m@);
    assert(m1 =~= seq![("enum"@, strings_json(e@.values))]);
    if e.metadata.len() > 0 {
        let mut meta: Vec<(String, JsonValue)> = Vec::new();
        let mut i: usize = 0;
        while i < e.metadata.len()
            invariant
                i <= e.metadata@.len(),
                members_json(meta@) == e@.metadata.subrange(0, i as int).map_values(
                    |p: (Seq<char>, Seq<char>)| (p.0, Json::Str(p.1)),
                ),
            decreases e.metadata@.len() - i,
        {
            let ghost before = members_json(meta@);
            meta.push((e.metadata[i].0.clone(), JsonValue::Str(e.metadata[i].1.clone())));
            assert(members_json(meta@) =~= before.push((e@.metadata[i as int].0, Json::Str(e@.metadata[i as int].1))));
            assert(e@.metadata.subrange(0, i + 1).map_values(|p: (Seq<char>, Seq<char>)| (p.0, Json::Str(p.1)))
                =~= e@.metadata.subrange(0, i as int).map_values(|p: (Seq<char>, Seq<char>)| (p.0, Json::Str(p.1))).push(
                (e@.metadata[i as int].0, Json::Str(e@.metadata[i as int].1))));
            i = i + 1;
        }
        assert(e@.metadata.subrange(0, i as int) =~= e@.metadata);
        proof {
            object_members(meta);
        }
        push_member(&mut m, "x-intellij-enum-metadata", JsonValue::Object(meta));
    }
    let ghost m2 = members_json(m@);
    assert(m2 =~= m1 + member_if(
        e@.metadata.len() > 0,
        "x-intellij-enum-metadata"@,
        Json::Object(e@.metadata.map_values(|p: (Seq<char>, Seq<char>)| (p.0, Json::Str(p.1)))),
    ));
    if e.order_sensitive {
        push_member(&mut m, "x-intellij-enum-order-sensitive", JsonValue::Bool(true));
    }
    assert(members_json(m@) =~= m2 + member_if(e@.order_sensitive, "x-intellij-enum-order-sensitive"@, Json::Bool(true)));
    proof {
        object_members(m);
    }
    JsonValue::Object(m)
}

/// The JSON form of an element type.
pub fn render_type(t: &TypeSchema) -> (r: JsonValue)
    ensures
        json_of(r) == type_json(t@),
{
    match t {
        TypeSchema::Enumeration(e) => render_enum(e),
        TypeSchema::Ref(n) => reference(n),
        TypeSchema::Primitive(p) => {
            let name = match p {
                Primitive::Str => "string",
                Primitive::Int => "integer",
                Primitive::Bool => "boolean",
                Primitive::Num => "number",
            };
            let mut m: Vec<(String, JsonValue)> = Vec::new();
            push_member(&mut m, "type", text(name));
            proof {
                object_members(m);
            }
            assert(members_json(m@) =~= seq![("type"@, Json::Str(primitive_name(*p)))]);
            JsonValue::Object(m)
        },
        TypeSchema::Unknown(n) => {
            let mut m: Vec<(String, JsonValue)> = Vec::new();
            push_member(&mut m, "type", text("string"));
            push_member(&mut m, "description", JsonValue::Str(String::from_str("Type: ").concat(n.as_str())));
            proof {
                object_members(m);
            }
            assert(members_json(m@) =~= seq![("type"@, Json::Str("string"@)), ("description"@, Json::Str("Type: "@ + n@))]);
            JsonValue::Object(m)
        },
    }
}

/// The members of a property's schema before its documentation.
fn shaped(shape: Shape, base: JsonValue) -> (r: Vec<(String, JsonValue)>)
    requires
        json_of(base) is Object,
    ensures
        members_json(r@) == shaped_members(shape, json_of(base)),
{
    match shape {
        Shape::Single => {
            match base {
                JsonValue::Object(m) => {
                    proof {
                        object_members(m);
                    }
                    m
                },
                _ => Vec::new(),
            }
        },
        Shape::List => {
            let ghost b = json_of(base);
            let mut m: Vec<(String, JsonValue)> = Vec::new();
            push_member(&mut m, "type", text("array"));
            push_member(&mut m, "items", base);
            push_member(&mut m, "uniqueItems", JsonValue::Bool(true));
            assert(members_json(m@) =~= shaped_members(shape, b));
            m
        },
        Shape::KeyedList => {
            let ghost b = json_of(base);
            let mut keyed: Vec<(String, JsonValue)> = Vec::new();
            push_member(&mut keyed, "^[^@+:]+$", base);
            proof {
                object_members(keyed);
            }
            assert(members_json(keyed@) =~= seq![("^[^@+:]+$"@, b)]);
            let mut items: Vec<(String, JsonValue)> = Vec::new();
            assert(members_json(items@) =~= Seq::<(Seq<char>, Json)>::empty());
            push_member(&mut items, "type", text("object"));
            push_member(&mut items, "patternProperties", JsonValue::Object(keyed));
            proof {
                object_members(items);
            }
            assert(members_json(items@) =~= seq![
                ("type"@, Json::Str("object"@)),
                ("patternProperties"@, Json::Object(seq![("^[^@+:]+$"@, b)])),
            ]);
            let mut m: Vec<(String, JsonValue)> = Vec::new();
            push_member(&mut m, "type", text("array"));
            push_member(&mut m, "items", JsonValue::Object(items));
            push_member(&mut m, "uniqueItems", JsonValue::Bool(true));
            assert(members_json(m@) =~= shaped_members(shape, b));
            m
        },
    }
}

/// The JSON form of a property's schema.
pub fn render_property(p: &PropertySchema) -> (r: JsonValue)
    ensures
        json_of(r) == property_json(p@),
{
    let base = render_type(&p.base);
    let mut m = shaped(p.shape, base);
    let ghost m0 = members_json(m@);
    match &p.description {
        Some(d) => push_member(&mut m, "description", JsonValue::Str(d.clone())),
        None => {},
    }
    let ghost m1 = members_json(m@);
    assert(m1 =~= m0 + member_if(p@.description is Some, "description"@, Json::Str(p@.description->0)));
    match &p.title {
        Some(t) => push_member(&mut m, "title", JsonValue::Str(t.clone())),
        None => {},
    }
    let ghost m2 = members_json(m@);
    assert(m2 =~= m1 + member_if(p@.title is Some, "title"@, Json::Str(p@.title->0)));
    if p.platforms.len() > 0 || p.product_types.len() > 0 {
        let mut meta: Vec<(String, JsonValue)> = Vec::new();
        assert(members_json(meta@) =~= Seq::<(Seq<char>, Json)>::empty());
        if p.platforms.len() > 0 {
            push_member(&mut meta, "platforms", strings_value(&p.platforms));
        }
        let ghost n1 = members_json(meta@);
        assert(n1 =~= member_if(p@.platforms.len() > 0, "platforms"@, strings_json(p@.platforms)));
        if p.product_types.len() > 0 {
            push_member(&mut meta, "productTypes", strings_value(&p.product_types));
        }
        assert(members_json(meta@) =~= n1 + member_if(p@.product_types.len() > 0, "productTypes"@, strings_json(p@.product_types)));
        proof {
            object_members(meta);
        }
        push_member(&mut m, "x-intellij-metadata", JsonValue::Object(meta));
    }
    assert(members_json(m@) =~= m2 + member_if(
        p@.platforms.len() > 0 || p@.product_types.len() > 0,
        "x-intellij-metadata"@,
        metadata_json(p@),
    ));
    proof {
        object_members(m);
    }
    JsonValue::Object(m)
}

/// Keyed property schemas as one JSON object.
fn render_keyed(es: &Vec<(String, PropertySchema)>) -> (r: JsonValue)
    ensures
        json_of(r) == keyed_json(entries_view(es@)),
{
    let ghost ev = entries_view(es@);
    let mut m: Vec<(String, JsonValue)> = Vec::new();
    let mut i: usize = 0;
    while i < es.len()
        invariant
            i <= es@.len(),
            ev == entries_view(es@),
            members_json(m@) == ev.subrange(0, i as int).map_values(
                |e: (Seq<char>, PropertySchemaView)| (e.0, property_json(e.1)),
            ),
        decreases es@.len() - i,
    {
        let ghost before = members_json(m@);
        m.push((es[i].0.clone(), render_property(&es[i].1)));
        assert(members_json(m@) =~= before.push((ev[i as int].0, property_json(ev[i as int].1))));
        assert(ev.subrange(0, i + 1).map_values(|e: (Seq<char>, PropertySchemaView)| (e.0, property_json(e.1)))
            =~= ev.subrange(0, i as int).map_values(|e: (Seq<char>, PropertySchemaView)| (e.0, property_json(e.1))).push(
            (ev[i as int].0, property_json(ev[i as int].1))));
        i = i + 1;
    }
    assert(ev.subrange(0, i as int) =~= ev);
    proof {
        object_members(m);
    }
    JsonValue::Object(m)
}

/// The JSON form of an object definition.
pub fn render_object(o: &ObjectSchema) -> (r: JsonValue)
    ensures
        json_of(r) == object_json(o@),
{
    let mut m: Vec<(String, JsonValue)> = Vec::new();
    push_member(&mut m, "type", text("object"));
    push_member(&mut m, "additionalProperties", JsonValue::Bool(false));
    let ghost m0 = members_json(m@);
    if o.properties.len() > 0 {
        push_member(&mut m, "properties", render_keyed(&o.properties));
    }
    let ghost m1 = members_json(m@);
    assert(m1 =~= m0 + member_if(o@.properties.len() > 0, "properties"@, keyed_json(o@.properties)));
    if o.pattern_properties.len() > 0 {
        push_member(&mut m, "patternProperties", render_keyed(&o.pattern_properties));
    }
    let ghost m2 = members_json(m@);
    assert(m2 =~= m1 + member_if(o@.pattern_properties.len() > 0, "patternProperties"@, keyed_json(o@.pattern_properties)));
    if o.required.len() > 0 {
        push_member(&mut m, "required", strings_value(&o.required));
    }
    let ghost m3 = members_json(m@);
    assert(m3 =~= m2 + member_if(o@.required.len() > 0, "required"@, strings_json(o@.required)));
    match &o.title {
        Some(t) => push_member(&mut m, "title", JsonValue::Str(t.clone())),
        None => {},
    }
    assert(members_json(m@) =~= m3 + member_if(o@.title is Some, "title"@, Json::Str(o@.title->0)));
    assert(seq![("type"@, Json::Str("object"@)), ("additionalProperties"@, Json::Bool(false))] =~= m0);
    proof {
        object_members(m);
    }
    JsonValue::Object(m)
}

/// The JSON form of a definition.
pub fn render_definition(d: &Definition) -> (r: JsonValue)
    ensures
        json_of(r) == definition_json(d@),
{
    match d {
        Definition::Variants(ns) => {
            let mut alts: Vec<JsonValue> = Vec::new();
            let mut i: usize = 0;
            while i < ns.len()
                invariant
                    i <= ns@.len(),
                    alts@.len() == i,
                    forall|k: int| 0 <= k < i ==> json_of(#[trigger] alts@[k]) == ref_json(ns@[k]@),
                decreases ns@.len() - i,
            {
                alts.push(reference(&ns[i]));
                i = i + 1;
            }
            proof {
                array_items(alts);
            }
            assert(Seq::new(alts@.len(), |i: int| json_of(alts@[i])) =~= ns.deep_view().map_values(
                |n: Seq<char>| ref_json(n),
            ));
            let mut m: Vec<(String, JsonValue)> = Vec::new();
            push_member(&mut m, "anyOf", JsonValue::Array(alts));
            proof {
                object_members(m);
            }
            assert(members_json(m@) =~= seq![("anyOf"@, Json::Array(ns.deep_view().map_values(|n: Seq<char>| ref_json(n))))]);
            JsonValue::Object(m)
        },
        Definition::Object(o) => render_object(o),
    }
}

/// The JSON Schema document of `doc`: its identity, a reference to the
/// root's definition, and every definition under `$defs`.
pub fn render_document(doc: &SchemaDocument) -> (r: JsonValue)
    ensures
        json_of(r) == document_json(doc.root@, definitions_view(doc.definitions)),
{
    let ghost dv = definitions_view(doc.definitions);
    let n = definition_map_len(&doc.definitions);
    let mut defs: Vec<(String, JsonValue)> = Vec::new();
    let mut i: usize = 0;
    while i < n
        invariant
            i <= n == dv.len(),
            dv == definitions_view(doc.definitions),
            members_json(defs@) == dv.subrange(0, i as int).map_values(
                |e: (Seq<char>, DefinitionView)| (e.0, definition_json(e.1)),
            ),
        decreases n - i,
    {
        let ghost before = members_json(defs@);
        let (name, d) = definition_map_get(&doc.definitions, i).unwrap();
        defs.push((name.clone(), render_definition(d)));
        assert(members_json(defs@) =~= before.push((dv[i as int].0, definition_json(dv[i as int].1))));
        assert(dv.subrange(0, i + 1).map_values(|e: (Seq<char>, DefinitionView)| (e.0, definition_json(e.1)))
            =~= dv.subrange(0, i as int).map_values(|e: (Seq<char>, DefinitionView)| (e.0, definition_json(e.1))).push(
            (dv[i as int].0, definition_json(dv[i as int].1))));
        i = i + 1;
    }
    assert(dv.subrange(0, i as int) =~= dv);
    proof {
        object_members(defs);
    }
    let mut all: Vec<JsonValue> = Vec::new();
    all.push(reference(&doc.root));
    proof {
        array_items(all);
    }
    assert(Seq::new(all@.len(), |i: int| json_of(all@[i])) =~= seq![ref_json(doc.root@)]);
    let mut m: Vec<(String, JsonValue)> = Vec::new();
    push_member(&mut m, "$schema", text("https://json-schema.org/draft/2020-12/schema"));
    push_member(&mut m, "$id", JsonValue::Str(doc.root.clone().concat(".json")));
    push_member(&mut m, "title", JsonValue::Str(doc.root.clone().concat(" schema")));
    push_member(&mut m, "type", text("object"));
    push_member(&mut m, "allOf", JsonValue::Array(all));
    push_member(&mut m, "$defs", JsonValue::Object(defs));
    proof {
        object_members(m);
    }
    assert(members_json(m@) =~= document_json(doc.root@, dv)->Object_0);
    JsonValue::Object(m)
}

} // verus!
