//! Builds the schema model of a root class and every type it reaches.
use vstd::prelude::*;

use vstd::string::StringExecFns;

use indexmap::IndexMap;

use crate::text::{
    chars_of, has_prefix, lemma_push_deep, prefix_at, same_text, string_range, strip_trailing, trim,
    trim_range,
};
use crate::types::{
    class_names, enum_names, first_name_at, upsert, lemma_first_name, name_index, ClassView, EntryView, EnumDef,
    EnumView, ParsingContext, Property, PropertyView,
};

verus! {

/// A primitive JSON type.
#[derive(Clone, Copy, Debug, PartialEq, Eq, Structural)]
pub enum Primitive {
    Str,
    Int,
    Bool,
    Num,
}

/// How a property holds its element type.
#[derive(Clone, Copy, Debug, PartialEq, Eq, Structural)]
pub enum Shape {
    /// One value.
    Single,
    /// An array of distinct values.
    List,
    /// An array of distinct single-key objects, each mapping a key to a value.
    KeyedList,
}

/// The allowed values of an enum, with their documentation.
#[derive(Debug)]
pub struct EnumSchema {
    pub values: Vec<String>,
    /// Value and documentation, for each allowed value that has documentation.
    pub metadata: Vec<(String, String)>,
    pub order_sensitive: bool,
}

/// The schema of an element type.
#[derive(Debug)]
pub enum TypeSchema {
    Enumeration(EnumSchema),
    /// A reference to the definition of the named class.
    Ref(String),
    Primitive(Primitive),
    /// A type that could not be resolved: a string, described by its name.
    Unknown(String),
}

/// The schema of one property.
#[derive(Debug)]
pub struct PropertySchema {
    pub shape: Shape,
    pub base: TypeSchema,
    pub description: Option<String>,
    pub title: Option<String>,
    pub platforms: Vec<String>,
    pub product_types: Vec<String>,
}

/// An object definition: named and pattern-keyed properties, required names, title.
#[derive(Debug)]
pub struct ObjectSchema {
    pub properties: Vec<(String, PropertySchema)>,
    pub pattern_properties: Vec<(String, PropertySchema)>,
    pub required: Vec<String>,
    pub title: Option<String>,
}

/// The definition of one class.
#[derive(Debug)]
pub enum Definition {
    /// A sealed class: any one of the named subclasses.
    Variants(Vec<String>),
    Object(ObjectSchema),
}

/// A root class and the definitions of every type it reaches.
#[derive(Debug)]
pub struct SchemaDocument {
    pub root: String,
    pub definitions: IndexMap<String, Definition>,
}

/// Why no schema could be built.
#[derive(Debug, PartialEq, Eq, Structural)]
pub enum SchemaError {
    /// The requested root is not a known class.
    RootNotFound,
}

pub struct EnumSchemaView {
    pub values: Seq<Seq<char>>,
    pub metadata: Seq<(Seq<char>, Seq<char>)>,
    pub order_sensitive: bool,
}

pub enum TypeSchemaView {
    Enumeration(EnumSchemaView),
    Ref(Seq<char>),
    Primitive(Primitive),
    Unknown(Seq<char>),
}

pub struct PropertySchemaView {
    pub shape: Shape,
    pub base: TypeSchemaView,
    pub description: Option<Seq<char>>,
    pub title: Option<Seq<char>>,
    pub platforms: Seq<Seq<char>>,
    pub product_types: Seq<Seq<char>>,
}

pub struct ObjectSchemaView {
    pub properties: Seq<(Seq<char>, PropertySchemaView)>,
    pub pattern_properties: Seq<(Seq<char>, PropertySchemaView)>,
    pub required: Seq<Seq<char>>,
    pub title: Option<Seq<char>>,
}

pub enum DefinitionView {
    Variants(Seq<Seq<char>>),
    Object(ObjectSchemaView),
}

impl View for EnumSchema {
    type V = EnumSchemaView;

    open spec fn view(&self) -> EnumSchemaView {
        EnumSchemaView {
            values: self.values.deep_view(),
            metadata: self.metadata.deep_view(),
            order_sensitive: self.order_sensitive,
        }
    }
}

impl View for TypeSchema {
    type V = TypeSchemaView;

    open spec fn view(&self) -> TypeSchemaView {
        match self {
            TypeSchema::Enumeration(e) => TypeSchemaView::Enumeration(e@),
            TypeSchema::Ref(n) => TypeSchemaView::Ref(n@),
            TypeSchema::Primitive(p) => TypeSchemaView::Primitive(*p),
            TypeSchema::Unknown(n) => TypeSchemaView::Unknown(n@),
        }
    }
}

impl View for PropertySchema {
    type V = PropertySchemaView;

    open spec fn view(&self) -> PropertySchemaView {
        PropertySchemaView {
            shape: self.shape,
            base: self.base@,
            description: self.description.deep_view(),
            title: self.title.deep_view(),
            platforms: self.platforms.deep_view(),
            product_types: self.product_types.deep_view(),
        }
    }
}

/// Keyed property schemas as plain values.
pub open spec fn entries_view(v: Seq<(String, PropertySchema)>) -> Seq<(Seq<char>, PropertySchemaView)> {
    v.map_values(|e: (String, PropertySchema)| (e.0@, e.1@))
}

impl View for ObjectSchema {
    type V = ObjectSchemaView;

    open spec fn view(&self) -> ObjectSchemaView {
        ObjectSchemaView {
            properties: entries_view(self.properties@),
            pattern_properties: entries_view(self.pattern_properties@),
            required: self.required.deep_view(),
            title: self.title.deep_view(),
        }
    }
}

impl View for Definition {
    type V = DefinitionView;

    open spec fn view(&self) -> DefinitionView {
        match self {
            Definition::Variants(v) => DefinitionView::Variants(v.deep_view()),
            Definition::Object(o) => DefinitionView::Object(o@),
        }
    }
}

/// The entries of a table of definitions, in order: name and definition.
pub uninterp spec fn definitions_view(m: IndexMap<String, Definition>) -> Seq<(Seq<char>, DefinitionView)>;

/// Relies on `IndexMap::new`: an empty table.
#[verifier::external_body]
fn new_definition_map() -> (r: IndexMap<String, Definition>)
    ensures
        definitions_view(r) == Seq::<(Seq<char>, DefinitionView)>::empty(),
{
    IndexMap::new()
}

/// Relies on `IndexMap::insert`: an existing key keeps its place and takes
/// the new value; a new key goes last.
#[verifier::external_body]
fn definition_map_insert(m: &mut IndexMap<String, Definition>, k: String, v: Definition)
    ensures
        definitions_view(*final(m)) == upsert(definitions_view(*old(m)), k@, v@),
{
    m.insert(k, v);
}

/// Relies on `IndexMap::len`: the number of entries.
#[verifier::external_body]
pub(crate) fn definition_map_len(m: &IndexMap<String, Definition>) -> (r: usize)
    ensures
        r == definitions_view(*m).len(),
{
    m.len()
}

/// Relies on `IndexMap::get_index`: the entry at position `i`, if any.
#[verifier::external_body]
pub(crate) fn definition_map_get(m: &IndexMap<String, Definition>, i: usize) -> (r: Option<(&String, &Definition)>)
    ensures
        match r {
            Some((k, v)) => i < definitions_view(*m).len() && k@ == definitions_view(*m)[i as int].0
                && v@ == definitions_view(*m)[i as int].1,
            None => i >= definitions_view(*m).len(),
        },
{
    m.get_index(i)
}


/// The schema values of the entries that are not outdated, in order.
pub open spec fn live_values(entries: Seq<EntryView>) -> Seq<Seq<char>>
    decreases entries.len(),
{
    if entries.len() == 0 {
        Seq::empty()
    } else {
        let r = live_values(entries.drop_last());
        if entries.last().is_outdated {
            r
        } else {
            r.push(entries.last().schema_value)
        }
    }
}

/// Value and documentation of the entries that are not outdated and have documentation.
pub open spec fn live_docs(entries: Seq<EntryView>) -> Seq<(Seq<char>, Seq<char>)>
    decreases entries.len(),
{
    if entries.len() == 0 {
        Seq::empty()
    } else {
        let r = live_docs(entries.drop_last());
        let e = entries.last();
        if !e.is_outdated && e.doc is Some {
            r.push((e.schema_value, e.doc->0))
        } else {
            r
        }
    }
}

/// The outdated entries.
pub open spec fn outdated_count(entries: Seq<EntryView>) -> nat
    decreases entries.len(),
{
    if entries.len() == 0 {
        0
    } else {
        outdated_count(entries.drop_last()) + if entries.last().is_outdated {
            1nat
        } else {
            0nat
        }
    }
}

/// The schema of an enum.
pub open spec fn enum_schema_spec(e: EnumView) -> EnumSchemaView {
    EnumSchemaView {
        values: live_values(e.entries),
        metadata: live_docs(e.entries),
        order_sensitive: e.is_order_sensitive,
    }
}

/// The allowed values of `enum_def`: every entry that is not outdated, in
/// order, with the documentation of those that have it.
pub fn build_enum_schema(enum_def: &EnumDef) -> (r: EnumSchema)
    ensures
        r@ == enum_schema_spec(enum_def@),
{
    let ghost es = enum_def@.entries;
    let mut values: Vec<String> = Vec::new();
    let mut metadata: Vec<(String, String)> = Vec::new();
    let mut i: usize = 0;
    while i < enum_def.entries.len()
        invariant
            i <= enum_def.entries@.len(),
            es == enum_def@.entries,
            values.deep_view() == live_values(es.subrange(0, i as int)),
            metadata.deep_view() == live_docs(es.subrange(0, i as int)),
        decreases enum_def.entries@.len() - i,
    {
        let e = &enum_def.entries[i];
        assert(es.subrange(0, i + 1).drop_last() =~= es.subrange(0, i as int));
        assert(es.subrange(0, i + 1).last() == e@);
        if !e.is_outdated {
            let ghost prev = values;
            values.push(e.schema_value.clone());
            proof {
                lemma_push_deep(prev, values, e.schema_value);
            }
            match &e.doc {
                Some(d) => {
                    let ghost prev_m = metadata;
                    metadata.push((e.schema_value.clone(), d.clone()));
                    assert(metadata.deep_view() =~= prev_m.deep_view().push((e.schema_value@, d@)));
                },
                None => {},
            }
        }
        i = i + 1;
    }
    assert(es.subrange(0, i as int) =~= es);
    EnumSchema { values, metadata, order_sensitive: enum_def.is_order_sensitive }
}

/// Documentation cut down to a title: every `[Read more]` and every
/// parenthesis dropped, both read left to right in the given text.
pub open spec fn drop_marks(s: Seq<char>) -> Seq<char>
    decreases s.len(),
{
    if s.len() == 0 {
        Seq::empty()
    } else if has_prefix(s, "[Read more]"@) && s.len() >= 11 {
        drop_marks(s.subrange(11, s.len() as int))
    } else if s[0] == '(' || s[0] == ')' {
        drop_marks(s.subrange(1, s.len() as int))
    } else {
        seq![s[0]] + drop_marks(s.subrange(1, s.len() as int))
    }
}

/// The short title of a documentation text.
pub open spec fn short_doc_spec(doc: Seq<char>) -> Seq<char> {
    strip_trailing(trim(drop_marks(doc)), '.')
}

/// The short title of a documentation text: `[Read more]` markers and
/// parentheses removed, white space trimmed, trailing periods dropped.
pub fn short_doc(doc: &str) -> (r: String)
    ensures
        r@ == short_doc_spec(doc@),
{
    proof {
        reveal_strlit("[Read more]");
    }
    let cs = chars_of(doc);
    let n = cs.len();
    let mut out: Vec<char> = Vec::new();
    let mut i: usize = 0;
    assert(cs@.subrange(0, n as int) =~= doc@);
    while i < n
        invariant
            i <= n == cs@.len(),
            cs@ == doc@,
            out@ + drop_marks(cs@.subrange(i as int, n as int)) == drop_marks(doc@),
        decreases n - i,
    {
        let ghost rest = cs@.subrange(i as int, n as int);
        if n - i >= 11 && prefix_at(&cs, i, n, "[Read more]") {
            assert(rest.subrange(11, rest.len() as int) =~= cs@.subrange(i + 11, n as int));
            i = i + 11;
        } else {
            let c = cs[i];
            assert(rest[0] == c);
            assert(rest.subrange(1, rest.len() as int) =~= cs@.subrange(i + 1, n as int));
            if c != '(' && c != ')' {
                let ghost before = out@;
                out.push(c);
                assert(out@ + drop_marks(cs@.subrange(i + 1, n as int)) =~= before + (seq![c] + drop_marks(cs@.subrange(i + 1, n as int))));
            }
            i = i + 1;
        }
    }
    assert(cs@.subrange(n as int, n as int) =~= Seq::<char>::empty());
    assert(out@ =~= drop_marks(doc@));
    let m = out.len();
    let (a, b0) = trim_range(&out, 0, m);
    assert(out@.subrange(0, m as int) =~= out@);
    let mut b: usize = b0;
    while b > a && out[b - 1] == '.'
        invariant
            a <= b <= b0 <= out@.len(),
            strip_trailing(out@.subrange(a as int, b0 as int), '.') == strip_trailing(
                out@.subrange(a as int, b as int),
                '.',
            ),
        decreases b,
    {
        assert(out@.subrange(a as int, b as int).drop_last() =~= out@.subrange(a as int, b - 1));
        b = b - 1;
    }
    string_range(&out, a, b)
}

/// The primitive a type name stands for, if any.
pub open spec fn primitive_of(t: Seq<char>) -> Option<Primitive> {
    if t == "String"@ || t == "TraceableString"@ || t == "Path"@ || t == "TraceablePath"@ {
        Some(Primitive::Str)
    } else if t == "Int"@ || t == "Integer"@ {
        Some(Primitive::Int)
    } else if t == "Boolean"@ {
        Some(Primitive::Bool)
    } else if t == "Double"@ || t == "Float"@ {
        Some(Primitive::Num)
    } else {
        None
    }
}

/// The enum named inside a `TraceableEnum<...>` wrapper.
pub open spec fn wrapped_enum(t: Seq<char>) -> Seq<char> {
    t.subrange(14, t.len() - 1)
}

/// Whether `t` is written `TraceableEnum<...>`.
pub open spec fn is_wrapped_enum(t: Seq<char>) -> bool {
    t.len() > 14 && has_prefix(t, "TraceableEnum<"@) && t.last() == '>'
}

/// The schema of element type `t`: an enum by name, then a class by name,
/// then an enum inside `TraceableEnum<...>`, then a primitive, else unknown.
pub open spec fn type_schema_spec(g: Seq<ClassView>, en: Seq<EnumView>, t: Seq<char>) -> TypeSchemaView {
    let ei = name_index(enum_names(en), t);
    if ei >= 0 {
        TypeSchemaView::Enumeration(enum_schema_spec(en[ei]))
    } else if name_index(class_names(g), t) >= 0 {
        TypeSchemaView::Ref(t)
    } else if is_wrapped_enum(t) && name_index(enum_names(en), wrapped_enum(t)) >= 0 {
        TypeSchemaView::Enumeration(enum_schema_spec(en[name_index(enum_names(en), wrapped_enum(t))]))
    } else if primitive_of(t) is Some {
        TypeSchemaView::Primitive(primitive_of(t)->0)
    } else {
        TypeSchemaView::Unknown(t)
    }
}

/// The schema of one property.
pub open spec fn property_schema_spec(g: Seq<ClassView>, en: Seq<EnumView>, p: PropertyView) -> PropertySchemaView {
    PropertySchemaView {
        shape: if p.is_list {
            Shape::List
        } else if p.is_map {
            Shape::KeyedList
        } else {
            Shape::Single
        },
        base: type_schema_spec(g, en, p.elem_type),
        description: p.doc,
        title: match p.doc {
            Some(d) => Some(short_doc_spec(d)),
            None => None,
        },
        platforms: p.platforms(),
        product_types: p.product_types(),
    }
}

impl ParsingContext {
    /// The schema of element type `elem`.
    pub fn build_type_schema(&self, elem: &str) -> (r: TypeSchema)
        requires
            self.wf(),
        ensures
            r@ == type_schema_spec(self.class_views(), self.enum_views(), elem@),
    {
        let ghost g = self.class_views();
        let ghost en = self.enum_views();
        match self.enum_index(elem) {
            Some(i) => {
                proof {
                    lemma_first_name(enum_names(en), elem@, i as int);
                }
                return TypeSchema::Enumeration(build_enum_schema(self.enum_at(i)));
            },
            None => {},
        }
        match self.class_index(elem) {
            Some(i) => {
                proof {
                    lemma_first_name(class_names(g), elem@, i as int);
                }
                return TypeSchema::Ref(String::from_str(elem));
            },
            None => {},
        }
        let cs = chars_of(elem);
        let n = cs.len();
        assert(cs@.subrange(0, n as int) =~= elem@);
        if n > 14 && prefix_at(&cs, 0, n, "TraceableEnum<") && cs[n - 1] == '>' {
            let inner = string_range(&cs, 14, n - 1);
            match self.enum_index(inner.as_str()) {
                Some(i) => {
                    proof {
                        lemma_first_name(enum_names(en), inner@, i as int);
                    }
                    return TypeSchema::Enumeration(build_enum_schema(self.enum_at(i)));
                },
                None => {},
            }
        }
        if same_text(elem, "String") || same_text(elem, "TraceableString") || same_text(
            elem,
            "Path",
        ) || same_text(elem, "TraceablePath") {
            TypeSchema::Primitive(Primitive::Str)
        } else if same_text(elem, "Int") || same_text(elem, "Integer") {
            TypeSchema::Primitive(Primitive::Int)
        } else if same_text(elem, "Boolean") {
            TypeSchema::Primitive(Primitive::Bool)
        } else if same_text(elem, "Double") || same_text(elem, "Float") {
            TypeSchema::Primitive(Primitive::Num)
        } else {
            TypeSchema::Unknown(String::from_str(elem))
        }
    }

    /// The schema of one property: its element type, wrapped as a list or a
    /// keyed list, with its documentation and restrictions.
    pub fn build_property_schema(&self, prop: &Property) -> (r: PropertySchema)
        requires
            self.wf(),
        ensures
            r@ == property_schema_spec(self.class_views(), self.enum_views(), prop@),
    {
        let base = self.build_type_schema(prop.elem_type.as_str());
        let shape = if prop.is_list {
            Shape::List
        } else if prop.is_map {
            Shape::KeyedList
        } else {
            Shape::Single
        };
        let (description, title) = match &prop.doc {
            Some(d) => (Some(d.clone()), Some(short_doc(d.as_str()))),
            None => (None, None),
        };
        PropertySchema {
            shape,
            base,
            description,
            title,
            platforms: prop.get_platform_specific(),
            product_types: prop.get_product_type_specific(),
        }
    }
}

/// Whether some property of `ps` is named `n`.
pub open spec fn prop_named(ps: Seq<PropertyView>, n: Seq<char>) -> bool {
    exists|k: int| 0 <= k < ps.len() && #[trigger] ps[k].name == n
}

/// `acc` followed by each property of `extra` whose name is not yet present, in order.
pub open spec fn merge_props(acc: Seq<PropertyView>, extra: Seq<PropertyView>) -> Seq<PropertyView>
    decreases extra.len(),
{
    if extra.len() == 0 {
        acc
    } else {
        let r = merge_props(acc, extra.drop_last());
        if prop_named(r, extra.last().name) {
            r
        } else {
            r.push(extra.last())
        }
    }
}

/// `acc` merged with the properties of the ancestors, nearest first, for at most `fuel` steps.
pub open spec fn inherited(g: Seq<ClassView>, acc: Seq<PropertyView>, parent: Option<Seq<char>>, fuel: nat) -> Seq<PropertyView>
    decreases fuel,
{
    if fuel == 0 {
        acc
    } else {
        match parent {
            None => acc,
            Some(pn) => {
                let i = name_index(class_names(g), pn);
                if i < 0 {
                    acc
                } else {
                    inherited(g, merge_props(acc, g[i].properties), g[i].parent, (fuel - 1) as nat)
                }
            },
        }
    }
}

/// A class's own properties in declaration order, then those of each
/// ancestor in turn whose name is not yet present: a nearer one wins.
pub open spec fn effective_properties(g: Seq<ClassView>, c: ClassView) -> Seq<PropertyView> {
    inherited(g, c.properties, c.parent, g.len())
}

/// The key pattern of a modifier-aware property.
pub open spec fn pattern_of(n: Seq<char>) -> Seq<char> {
    if has_prefix(n, "test-"@) {
        "^"@ + n + "(@.+)?$"@
    } else {
        "^(test-)?"@ + n + "(@.+)?$"@
    }
}

/// Name and schema of each property that is not hidden, in order.
pub open spec fn shown_entries(g: Seq<ClassView>, en: Seq<EnumView>, ps: Seq<PropertyView>) -> Seq<(Seq<char>, PropertySchemaView)>
    decreases ps.len(),
{
    if ps.len() == 0 {
        Seq::empty()
    } else {
        let r = shown_entries(g, en, ps.drop_last());
        let p = ps.last();
        if p.hidden() {
            r
        } else {
            r.push((p.name, property_schema_spec(g, en, p)))
        }
    }
}

/// Key pattern and schema of each shown property that is modifier-aware, in order.
pub open spec fn pattern_entries(g: Seq<ClassView>, en: Seq<EnumView>, ps: Seq<PropertyView>) -> Seq<(Seq<char>, PropertySchemaView)>
    decreases ps.len(),
{
    if ps.len() == 0 {
        Seq::empty()
    } else {
        let r = pattern_entries(g, en, ps.drop_last());
        let p = ps.last();
        if !p.hidden() && p.modifier_aware() {
            r.push((pattern_of(p.name), property_schema_spec(g, en, p)))
        } else {
            r
        }
    }
}

/// Names of the shown properties that are neither nullable nor defaulted, in order.
pub open spec fn required_names(ps: Seq<PropertyView>) -> Seq<Seq<char>>
    decreases ps.len(),
{
    if ps.len() == 0 {
        Seq::empty()
    } else {
        let r = required_names(ps.drop_last());
        let p = ps.last();
        if !p.hidden() && p.required() {
            r.push(p.name)
        } else {
            r
        }
    }
}

/// The names of `ns` that name a class of `g`, in order.
pub open spec fn existing(g: Seq<ClassView>, ns: Seq<Seq<char>>) -> Seq<Seq<char>>
    decreases ns.len(),
{
    if ns.len() == 0 {
        Seq::empty()
    } else {
        let r = existing(g, ns.drop_last());
        if name_index(class_names(g), ns.last()) >= 0 {
            r.push(ns.last())
        } else {
            r
        }
    }
}

/// The definition of class `c`: the alternatives of a sealed class (none
/// when it has no subclasses), else an object over its effective properties. The required
/// list is kept only when some but not all properties are required.
pub open spec fn class_definition_spec(g: Seq<ClassView>, en: Seq<EnumView>, c: ClassView) -> DefinitionView {
    if c.is_sealed {
        DefinitionView::Variants(existing(g, c.subclasses))
    } else {
        let all = effective_properties(g, c);
        let req = required_names(all);
        DefinitionView::Object(
            ObjectSchemaView {
                properties: shown_entries(g, en, all),
                pattern_properties: pattern_entries(g, en, all),
                required: if req.len() > 0 && req.len() < all.len() {
                    req
                } else {
                    Seq::empty()
                },
                title: c.doc,
            },
        )
    }
}

/// The properties that a list of (class, property) positions designates.
pub open spec fn pairs_view(g: Seq<ClassView>, v: Seq<(usize, usize)>) -> Seq<PropertyView> {
    v.map_values(|p: (usize, usize)| g[p.0 as int].properties[p.1 as int])
}

/// Every position designates a property of `g`.
pub open spec fn pairs_valid(g: Seq<ClassView>, v: Seq<(usize, usize)>) -> bool {
    forall|k: int| 0 <= k < v.len() ==> (#[trigger] v[k]).0 < g.len() && v[k].1 < g[v[k].0 as int].properties.len()
}

impl ParsingContext {
    /// Whether one of the designated properties is named `n`.
    fn pairs_name(&self, out: &Vec<(usize, usize)>, n: &String) -> (r: bool)
        requires
            pairs_valid(self.class_views(), out@),
        ensures
            r == prop_named(pairs_view(self.class_views(), out@), n@),
    {
        let ghost pv = pairs_view(self.class_views(), out@);
        let mut k: usize = 0;
        while k < out.len()
            invariant
                k <= out@.len(),
                pairs_valid(self.class_views(), out@),
                pv == pairs_view(self.class_views(), out@),
                forall|j: int| 0 <= j < k ==> pv[j].name != n@,
            decreases out@.len() - k,
        {
            let (a, b) = out[k];
            assert(out@[k as int].0 < self.class_views().len());
            let c = self.class_at(a);
            assert(self.class_views()[a as int].properties[b as int] == c.properties@[b as int]@);
            if same_text(c.properties[b].name.as_str(), n.as_str()) {
                assert(pv[k as int].name == n@);
                return true;
            }
            k = k + 1;
        }
        false
    }

    /// Appends the properties of class `pi` whose names are not yet present.
    fn merge_from(&self, out: &mut Vec<(usize, usize)>, pi: usize)
        requires
            pi < self.class_views().len(),
            pairs_valid(self.class_views(), old(out)@),
        ensures
            pairs_valid(self.class_views(), final(out)@),
            pairs_view(self.class_views(), final(out)@) == merge_props(
                pairs_view(self.class_views(), old(out)@),
                self.class_views()[pi as int].properties,
            ),
    {
        let ghost g = self.class_views();
        let ghost acc = pairs_view(g, out@);
        let ghost extra = g[pi as int].properties;
        let parent = self.class_at(pi);
        let m = parent.properties.len();
        let mut k: usize = 0;
        while k < m
            invariant
                pi < self.class_views().len(),
                parent@ == g[pi as int],
                g == self.class_views(),
                extra == g[pi as int].properties,
                m == extra.len(),
                k <= m,
                pairs_valid(g, out@),
                pairs_view(g, out@) == merge_props(acc, extra.subrange(0, k as int)),
            decreases m - k,
        {
            assert(extra.subrange(0, k + 1).drop_last() =~= extra.subrange(0, k as int));
            assert(extra.subrange(0, k + 1).last() == extra[k as int]);
            assert(extra[k as int] == parent.properties@[k as int]@);
            if !self.pairs_name(out, &parent.properties[k].name) {
                let ghost before = out@;
                out.push((pi, k));
                assert(pairs_view(g, out@) =~= pairs_view(g, before).push(extra[k as int]));
            }
            k = k + 1;
        }
        assert(extra.subrange(0, m as int) =~= extra);
    }

    /// Positions of the effective properties of class `idx`.
    fn effective_pairs(&self, idx: usize) -> (r: Vec<(usize, usize)>)
        requires
            self.wf(),
            idx < self.class_views().len(),
        ensures
            pairs_valid(self.class_views(), r@),
            pairs_view(self.class_views(), r@) == effective_properties(
                self.class_views(),
                self.class_views()[idx as int],
            ),
    {
        let ghost g = self.class_views();
        let n = self.class_count();
        let mut out: Vec<(usize, usize)> = Vec::new();
        let own = self.class_at(idx).properties.len();
        let mut j: usize = 0;
        while j < own
            invariant
                idx < n == g.len(),
                g == self.class_views(),
                own == g[idx as int].properties.len(),
                j <= own,
                pairs_valid(g, out@),
                pairs_view(g, out@) == g[idx as int].properties.subrange(0, j as int),
            decreases own - j,
        {
            let ghost before = out@;
            assert(pairs_view(g, before).len() == j);
            out.push((idx, j));
            assert(out@ == before.push((idx, j)));
            assert forall|k: int| 0 <= k <= j implies #[trigger] pairs_view(g, out@)[k] == g[idx as int].properties.subrange(0, j + 1)[k] by {
                if k < j {
                    assert(pairs_view(g, out@)[k] == pairs_view(g, before)[k]);
                }
            }
            assert(pairs_view(g, out@) =~= g[idx as int].properties.subrange(0, j + 1));
            j = j + 1;
        }
        assert(g[idx as int].properties.subrange(0, own as int) =~= g[idx as int].properties);
        let mut cur: usize = idx;
        let mut hops: usize = 0;
        let mut done = false;
        while hops < n && !done
            invariant
                idx < n == g.len(),
                self.wf(),
                g == self.class_views(),
                cur < n,
                hops <= n,
                pairs_valid(g, out@),
                effective_properties(g, g[idx as int]) == inherited(
                    g,
                    pairs_view(g, out@),
                    g[cur as int].parent,
                    (n - hops) as nat,
                ),
                done ==> inherited(g, pairs_view(g, out@), g[cur as int].parent, (n - hops) as nat)
                    == pairs_view(g, out@),
            decreases 2 * (n - hops) + if done { 0int } else { 1int },
        {
            match &self.class_at(cur).parent {
                None => {
                    done = true;
                },
                Some(pn) => {
                    match self.class_index(pn.as_str()) {
                        None => {
                            done = true;
                        },
                        Some(pi) => {
                            proof {
                                lemma_first_name(class_names(g), pn@, pi as int);
                            }
                            self.merge_from(&mut out, pi);
                            cur = pi;
                            hops = hops + 1;
                        },
                    }
                },
            }
        }
        out
    }
}

/// The key pattern of a modifier-aware property named `n`: an optional
/// `test-` prefix (unless the name has one) and an optional `@platform` suffix.
pub fn pattern_for(n: &String) -> (r: String)
    ensures
        r@ == pattern_of(n@),
{
    let cs = chars_of(n.as_str());
    assert(cs@.subrange(0, cs@.len() as int) =~= cs@);
    if prefix_at(&cs, 0, cs.len(), "test-") {
        String::from_str("^").concat(n.as_str()).concat("(@.+)?$")
    } else {
        String::from_str("^(test-)?").concat(n.as_str()).concat("(@.+)?$")
    }
}

/// The class names that a definition refers to.
pub open spec fn refs_spec(d: DefinitionView) -> Seq<Seq<char>> {
    match d {
        DefinitionView::Variants(ns) => ns,
        DefinitionView::Object(o) => ref_names(o.properties),
    }
}

/// The classes that the property schemas refer to, in order.
pub open spec fn ref_names(es: Seq<(Seq<char>, PropertySchemaView)>) -> Seq<Seq<char>>
    decreases es.len(),
{
    if es.len() == 0 {
        Seq::empty()
    } else {
        let r = ref_names(es.drop_last());
        match es.last().1.base {
            TypeSchemaView::Ref(n) => r.push(n),
            _ => r,
        }
    }
}

/// The class names that a definition refers to.
pub fn definition_refs(d: &Definition) -> (r: Vec<String>)
    ensures
        r.deep_view() == refs_spec(d@),
{
    match d {
        Definition::Variants(ns) => {
            let mut out: Vec<String> = Vec::new();
            let mut i: usize = 0;
            while i < ns.len()
                invariant
                    i <= ns@.len(),
                    out.deep_view() == ns.deep_view().subrange(0, i as int),
                decreases ns@.len() - i,
            {
                let ghost prev = out;
                out.push(ns[i].clone());
                proof {
                    lemma_push_deep(prev, out, ns@[i as int]);
                }
                assert(out.deep_view() =~= ns.deep_view().subrange(0, i + 1));
                i = i + 1;
            }
            assert(ns.deep_view().subrange(0, i as int) =~= ns.deep_view());
            out
        },
        Definition::Object(o) => {
            let ghost es = entries_view(o.properties@);
            let mut out: Vec<String> = Vec::new();
            let mut i: usize = 0;
            while i < o.properties.len()
                invariant
                    i <= o.properties@.len(),
                    es == entries_view(o.properties@),
                    out.deep_view() == ref_names(es.subrange(0, i as int)),
                decreases o.properties@.len() - i,
            {
                assert(es.subrange(0, i + 1).drop_last() =~= es.subrange(0, i as int));
                assert(es.subrange(0, i + 1).last() == es[i as int]);
                match &o.properties[i].1.base {
                    TypeSchema::Ref(n) => {
                        let ghost prev = out;
                        out.push(n.clone());
                        proof {
                            lemma_push_deep(prev, out, *n);
                        }
                    },
                    _ => {},
                }
                i = i + 1;
            }
            assert(es.subrange(0, i as int) =~= es);
            out
        },
    }
}

impl ParsingContext {
    /// The definition of class `idx`.
    pub fn build_class_definition(&self, idx: usize) -> (r: Definition)
        requires
            self.wf(),
            idx < self.class_views().len(),
        ensures
            r@ == class_definition_spec(self.class_views(), self.enum_views(), self.class_views()[idx as int]),
    {
        let ghost g = self.class_views();
        let ghost en = self.enum_views();
        let class = self.class_at(idx);
        assert(g[idx as int] == class@);
        if class.is_sealed {
            let ghost subs = class@.subclasses;
            let mut out: Vec<String> = Vec::new();
            let mut i: usize = 0;
            while i < class.subclasses.len()
                invariant
                    i <= class.subclasses@.len(),
                    subs == class@.subclasses,
                    self.wf(),
                    g == self.class_views(),
                    out.deep_view() == existing(g, subs.subrange(0, i as int)),
                decreases class.subclasses@.len() - i,
            {
                assert(subs.subrange(0, i + 1).drop_last() =~= subs.subrange(0, i as int));
                assert(subs.subrange(0, i + 1).last() == class.subclasses@[i as int]@);
                match self.class_index(class.subclasses[i].as_str()) {
                    Some(k) => {
                        proof {
                            lemma_first_name(class_names(g), subs[i as int], k as int);
                        }
                        let ghost prev = out;
                        out.push(class.subclasses[i].clone());
                        proof {
                            lemma_push_deep(prev, out, class.subclasses@[i as int]);
                        }
                    },
                    None => {},
                }
                i = i + 1;
            }
            assert(subs.subrange(0, i as int) =~= subs);
            return Definition::Variants(out);
        }
        let pairs = self.effective_pairs(idx);
        let ghost all = pairs_view(g, pairs@);
        let mut properties: Vec<(String, PropertySchema)> = Vec::new();
        let mut pattern_properties: Vec<(String, PropertySchema)> = Vec::new();
        let mut required: Vec<String> = Vec::new();
        let mut i: usize = 0;
        while i < pairs.len()
            invariant
                i <= pairs@.len(),
                self.wf(),
                g == self.class_views(),
                en == self.enum_views(),
                pairs_valid(g, pairs@),
                all == pairs_view(g, pairs@),
                entries_view(properties@) == shown_entries(g, en, all.subrange(0, i as int)),
                entries_view(pattern_properties@) == pattern_entries(g, en, all.subrange(0, i as int)),
                required.deep_view() == required_names(all.subrange(0, i as int)),
            decreases pairs@.len() - i,
        {
            let (a, b) = pairs[i];
            assert(pairs@[i as int].0 < g.len());
            let prop = &self.class_at(a).properties[b];
            assert(all[i as int] == prop@);
            assert(all.subrange(0, i + 1).drop_last() =~= all.subrange(0, i as int));
            assert(all.subrange(0, i + 1).last() == prop@);
            if !prop.is_hidden() {
                if prop.is_modifier_aware() {
                    let key = pattern_for(&prop.name);
                    let sch = self.build_property_schema(prop);
                    let ghost before = pattern_properties@;
                    pattern_properties.push((key, sch));
                    assert(entries_view(pattern_properties@) =~= entries_view(before).push((pattern_of(prop@.name), property_schema_spec(g, en, prop@))));
                }
                let sch = self.build_property_schema(prop);
                let ghost before = properties@;
                properties.push((prop.name.clone(), sch));
                assert(entries_view(properties@) =~= entries_view(before).push((prop@.name, property_schema_spec(g, en, prop@))));
                if !prop.is_nullable && prop.default_value.is_none() {
                    let ghost prev = required;
                    required.push(prop.name.clone());
                    proof {
                        lemma_push_deep(prev, required, prop.name);
                    }
                }
            }
            i = i + 1;
        }
        assert(all.subrange(0, i as int) =~= all);
        let required = if required.len() > 0 && required.len() < pairs.len() {
            required
        } else {
            let empty: Vec<String> = Vec::new();
            assert(empty.deep_view() =~= Seq::<Seq<char>>::empty());
            empty
        };
        let title = match &class.doc {
            Some(d) => Some(d.clone()),
            None => None,
        };
        Definition::Object(ObjectSchema { properties, pattern_properties, required, title })
    }
}

/// How many entries of `s` are false.
pub open spec fn count_false(s: Seq<bool>) -> nat
    decreases s.len(),
{
    if s.len() == 0 {
        0
    } else {
        count_false(s.drop_last()) + if s.last() {
            0nat
        } else {
            1nat
        }
    }
}

proof fn lemma_count_false_set(s: Seq<bool>, j: int)
    requires
        0 <= j < s.len(),
        !s[j],
    ensures
        count_false(s.update(j, true)) + 1 == count_false(s),
    decreases s.len(),
{
    let t = s.update(j, true);
    if j == s.len() - 1 {
        assert(t.drop_last() =~= s.drop_last());
    } else {
        assert(t.drop_last() =~= s.drop_last().update(j, true));
        lemma_count_false_set(s.drop_last(), j);
    }
}

/// The document is closed: each class that a definition refers to has a definition.
pub open spec fn refs_defined(g: Seq<ClassView>, defs: Seq<(Seq<char>, DefinitionView)>) -> bool {
    forall|q: int, r: Seq<char>|
        0 <= q < defs.len() && #[trigger] refs_spec(defs[q].1).contains(r) && name_index(class_names(g), r) >= 0
            ==> exists|q2: int| 0 <= q2 < defs.len() && #[trigger] defs[q2].0 == r
}

/// Each definition is that of the class it is named after.
pub open spec fn defs_exact(g: Seq<ClassView>, en: Seq<EnumView>, defs: Seq<(Seq<char>, DefinitionView)>) -> bool {
    forall|q: int|
        0 <= q < defs.len() ==> name_index(class_names(g), (#[trigger] defs[q]).0) >= 0 && defs[q].1
            == class_definition_spec(g, en, g[name_index(class_names(g), defs[q].0)])
}

/// No two definitions share a name.
pub open spec fn defs_unique(defs: Seq<(Seq<char>, DefinitionView)>) -> bool {
    forall|a: int, b: int| 0 <= a < defs.len() && 0 <= b < defs.len() && a != b ==> defs[a].0 != defs[b].0
}

/// `queue` after queueing, in order, each class named in `refs` that is not yet queued.
pub open spec fn enqueue(g: Seq<ClassView>, queue: Seq<usize>, refs: Seq<Seq<char>>) -> Seq<usize>
    decreases refs.len(),
{
    if refs.len() == 0 {
        queue
    } else {
        let q = enqueue(g, queue, refs.drop_last());
        let t = name_index(class_names(g), refs.last());
        if t >= 0 && !q.contains(t as usize) {
            q.push(t as usize)
        } else {
            q
        }
    }
}

/// Breadth-first order of the classes: from position `pos` of `queue` on,
/// each class's definition queues the classes it refers to.
pub open spec fn bfs(g: Seq<ClassView>, en: Seq<EnumView>, queue: Seq<usize>, pos: nat, fuel: nat) -> Seq<usize>
    decreases fuel,
{
    if fuel == 0 || pos >= queue.len() {
        queue
    } else {
        bfs(
            g,
            en,
            enqueue(g, queue, refs_spec(class_definition_spec(g, en, g[queue[pos as int] as int]))),
            pos + 1,
            (fuel - 1) as nat,
        )
    }
}

/// The definitions of the document rooted at `root`, in breadth-first order
/// from the root.
pub open spec fn schema_definitions(g: Seq<ClassView>, en: Seq<EnumView>, root: Seq<char>) -> Seq<(Seq<char>, DefinitionView)> {
    let order = bfs(g, en, seq![name_index(class_names(g), root) as usize], 0, usize::MAX as nat);
    order.map_values(|i: usize| (g[i as int].name, class_definition_spec(g, en, g[i as int])))
}

/// Class `queue[q]` is referred to by the definition of a class queued before it.
pub open spec fn referenced_earlier(g: Seq<ClassView>, en: Seq<EnumView>, queue: Seq<usize>, q: int) -> bool {
    exists|p: int|
        0 <= p < q && #[trigger] refs_spec(class_definition_spec(g, en, g[queue[p] as int])).contains(
            g[queue[q] as int].name,
        )
}

/// Every definition but the first is referred to by an earlier one, so each
/// is reached from the first.
pub open spec fn defs_reached(defs: Seq<(Seq<char>, DefinitionView)>) -> bool {
    forall|q: int|
        #![trigger defs[q]]
        0 < q < defs.len() ==> exists|p: int| #![trigger defs[p]] 0 <= p < q && refs_spec(defs[p].1).contains(defs[q].0)
}

/// Builds the definition of class `root_type` and of every class it reaches
/// through property types and sealed alternatives, the root first.
pub fn generate_json_schema(context: &ParsingContext, root_type: &str) -> (r: Result<SchemaDocument, SchemaError>)
    requires
        context.wf(),
    ensures
        match r {
            Ok(doc) => {
                let g = context.class_views();
                let defs = definitions_view(doc.definitions);
                &&& name_index(class_names(g), root_type@) >= 0
                &&& doc.root@ == root_type@
                &&& defs.len() > 0
                &&& defs[0].0 == root_type@
                &&& defs_exact(g, context.enum_views(), defs)
                &&& defs_unique(defs)
                &&& refs_defined(g, defs)
                &&& defs_reached(defs)
                &&& defs == schema_definitions(g, context.enum_views(), root_type@)
            },
            Err(e) => e == SchemaError::RootNotFound && name_index(
                class_names(context.class_views()),
                root_type@,
            ) == -1,
        },
{
    let ghost g = context.class_views();
    let ghost en = context.enum_views();
    let ghost cn = class_names(g);
    let root_idx = match context.class_index(root_type) {
        Some(i) => i,
        None => return Err(SchemaError::RootNotFound),
    };
    proof {
        lemma_first_name(cn, root_type@, root_idx as int);
    }
    let n = context.class_count();
    let mut queued: Vec<bool> = Vec::new();
    let mut k: usize = 0;
    while k < n
        invariant
            k <= n,
            queued@.len() == k,
            forall|j: int| 0 <= j < k ==> !(#[trigger] queued@[j]),
        decreases n - k,
    {
        queued.push(false);
        k = k + 1;
    }
    queued.set(root_idx, true);
    let mut queue: Vec<usize> = Vec::new();
    queue.push(root_idx);
    let mut defs = new_definition_map();
    let mut pos: usize = 0;
    assert(g[root_idx as int].name == root_type@);
    assert(queue@ =~= seq![root_idx]);
    assert forall|j: int| 0 <= j < n && #[trigger] queued@[j] implies exists|q: int| 0 <= q < queue@.len() && queue@[q] == j by {
        assert(j == root_idx);
        assert(queue@[0] == j);
    }
    while pos < queue.len()
        invariant
            n == g.len(),
            context.wf(),
            g == context.class_views(),
            en == context.enum_views(),
            cn == class_names(g),
            queued@.len() == n,
            queue@.len() > 0,
            queue@[0] == root_idx,
            g[root_idx as int].name == root_type@,
            forall|q: int| 0 <= q < queue@.len() ==> (#[trigger] queue@[q]) < n && first_name_at(
                cn,
                g[queue@[q] as int].name,
                queue@[q] as int,
            ),
            forall|q: int| 0 <= q < queue@.len() ==> #[trigger] queued@[queue@[q] as int],
            forall|j: int| 0 <= j < n && #[trigger] queued@[j] ==> exists|q: int| 0 <= q < queue@.len() && queue@[q] == j,
            forall|a: int, b: int| 0 <= a < queue@.len() && 0 <= b < queue@.len() && a != b ==> queue@[a] != queue@[b],
            forall|q: int| 0 < q < queue@.len() ==> #[trigger] referenced_earlier(g, en, queue@, q),
            bfs(g, en, queue@, pos as nat, (usize::MAX - pos) as nat) == bfs(g, en, seq![root_idx], 0, usize::MAX as nat),
            pos <= queue@.len(),
            definitions_view(defs).len() == pos,
            forall|q: int| 0 <= q < pos ==> (#[trigger] definitions_view(defs)[q]) == (
                g[queue@[q] as int].name,
                class_definition_spec(g, en, g[queue@[q] as int]),
            ),
            forall|q: int, r: Seq<char>|
                0 <= q < pos && #[trigger] refs_spec(definitions_view(defs)[q].1).contains(r) && name_index(cn, r) >= 0
                    ==> queued@[name_index(cn, r)],
        decreases count_false(queued@), queue@.len() - pos,
    {
        let ci = queue[pos];
        let d = context.build_class_definition(ci);
        let refs = definition_refs(&d);
        let ghost c0 = count_false(queued@);
        let ghost q0 = queue@.len();
        let ghost old_queued = queued@;
        let ghost old_queue = queue@;
        let mut j: usize = 0;
        assert(refs.deep_view().subrange(0, 0) =~= Seq::<Seq<char>>::empty());
        while j < refs.len()
            invariant
                n == g.len(),
                context.wf(),
                g == context.class_views(),
                cn == class_names(g),
                queued@.len() == n,
                queue@.len() > 0,
                queue@[0] == root_idx,
                pos < queue@.len(),
                queue@[pos as int] == ci,
                forall|q: int| 0 <= q < queue@.len() ==> (#[trigger] queue@[q]) < n && first_name_at(
                    cn,
                    g[queue@[q] as int].name,
                    queue@[q] as int,
                ),
                forall|q: int| 0 <= q < queue@.len() ==> #[trigger] queued@[queue@[q] as int],
                forall|i: int| 0 <= i < n && #[trigger] queued@[i] ==> exists|q: int| 0 <= q < queue@.len() && queue@[q] == i,
                forall|a: int, b: int| 0 <= a < queue@.len() && 0 <= b < queue@.len() && a != b ==> queue@[a] != queue@[b],
                forall|q: int| 0 < q < queue@.len() ==> #[trigger] referenced_earlier(g, en, queue@, q),
                en == context.enum_views(),
                ci == queue@[pos as int],
                refs.deep_view() == refs_spec(class_definition_spec(g, en, g[ci as int])),
                queue@ == enqueue(g, old_queue, refs.deep_view().subrange(0, j as int)),
                forall|i: int| 0 <= i < n && old_queued[i] ==> #[trigger] queued@[i],
                old_queued.len() == n,
                j <= refs@.len(),
                forall|i: int| 0 <= i < j && name_index(cn, #[trigger] refs.deep_view()[i]) >= 0 ==> queued@[name_index(cn, refs.deep_view()[i])],
                count_false(queued@) < c0 || (count_false(queued@) == c0 && queue@.len() == q0),
                queue@.len() >= q0,
                q0 == old_queue.len(),
                forall|q: int| 0 <= q < q0 ==> #[trigger] queue@[q] == old_queue[q],
            decreases refs@.len() - j,
        {
            let ghost rv = refs.deep_view();
            assert(rv.subrange(0, j + 1).drop_last() =~= rv.subrange(0, j as int));
            assert(rv.subrange(0, j + 1).last() == refs@[j as int]@);
            let ghost qj = queue@;
            match context.class_index(refs[j].as_str()) {
                Some(t) => {
                    proof {
                        lemma_first_name(cn, refs@[j as int]@, t as int);
                    }
                    if queued[t] {
                        assert(qj.contains(t)) by {
                            let q = choose|q: int| 0 <= q < qj.len() && qj[q] == t;
                        }
                    } else {
                        assert(!qj.contains(t)) by {
                            if qj.contains(t) {
                                let q = choose|q: int| 0 <= q < qj.len() && qj[q] == t;
                                assert(queued@[qj[q] as int]);
                            }
                        }
                    }
                    if !queued[t] {
                        proof {
                            lemma_count_false_set(queued@, t as int);
                        }
                        let ghost before_q = queue@;
                        queued.set(t, true);
                        queue.push(t);
                        assert(queue@ == qj.push(t));
                        assert(queue@[queue@.len() - 1] == t);
                        assert forall|q: int| 0 < q < queue@.len() implies #[trigger] referenced_earlier(g, en, queue@, q) by {
                            if q == queue@.len() - 1 {
                                assert(refs.deep_view()[j as int] == g[t as int].name);
                                assert(refs_spec(class_definition_spec(g, en, g[queue@[pos as int] as int])).contains(
                                    g[queue@[q] as int].name,
                                ));
                            } else {
                                assert(referenced_earlier(g, en, before_q, q));
                                let p = choose|p: int| 0 <= p < q && #[trigger] refs_spec(class_definition_spec(g, en, g[before_q[p] as int])).contains(
                                    g[before_q[q] as int].name,
                                );
                                assert(queue@[p] == before_q[p]);
                            }
                        }
                        assert forall|i: int| 0 <= i < n && #[trigger] queued@[i] implies exists|q: int| 0 <= q < queue@.len() && queue@[q] == i by {
                            if i == t {
                                assert(queue@[queue@.len() - 1] == i);
                            } else {
                                let q = choose|q: int| 0 <= q < before_q.len() && before_q[q] == i;
                                assert(queue@[q] == i);
                            }
                        }
                    }
                },
                None => {},
            }
            j = j + 1;
        }
        assert(refs.deep_view().subrange(0, j as int) =~= refs.deep_view());
        assert(old_queue[pos as int] == ci);
        assert(bfs(g, en, old_queue, pos as nat, (usize::MAX - pos) as nat) == bfs(
            g,
            en,
            queue@,
            (pos + 1) as nat,
            (usize::MAX - (pos + 1)) as nat,
        ));
        let ghost before_defs = definitions_view(defs);
        assert(forall|q: int| 0 <= q < pos ==> queue@[q] == old_queue[q]);
        let ghost dvv = d@;
        assert forall|q: int| 0 <= q < before_defs.len() implies before_defs[q].0 != g[ci as int].name by {
            assert(before_defs[q].0 == g[queue@[q] as int].name);
            if before_defs[q].0 == g[ci as int].name {
                lemma_first_name(cn, g[ci as int].name, ci as int);
                lemma_first_name(cn, g[queue@[q] as int].name, queue@[q] as int);
            }
        }
        definition_map_insert(&mut defs, context.class_at(ci).name.clone(), d);
        assert(definitions_view(defs) == before_defs.push((g[ci as int].name, dvv)));
        assert(definitions_view(defs) =~= before_defs.push((g[ci as int].name, class_definition_spec(g, en, g[ci as int]))));
        assert forall|q: int, r: Seq<char>|
            0 <= q < pos + 1 && #[trigger] refs_spec(definitions_view(defs)[q].1).contains(r) && name_index(cn, r) >= 0
                implies queued@[name_index(cn, r)] by {
            if q == pos {
                let i = choose|i: int| 0 <= i < refs.deep_view().len() && refs.deep_view()[i] == r;
                assert(name_index(cn, refs.deep_view()[i]) >= 0);
            } else {
                assert(definitions_view(defs)[q] == before_defs[q]);
            }
        }
        pos = pos + 1;
    }
    let ghost dv = definitions_view(defs);
    assert(bfs(g, en, queue@, pos as nat, (usize::MAX - pos) as nat) == queue@);
    assert(seq![name_index(cn, root_type@) as usize] =~= seq![root_idx]);
    assert(dv =~= schema_definitions(g, en, root_type@));
    assert forall|q: int| #![trigger dv[q]] 0 < q < dv.len() implies exists|p: int| #![trigger dv[p]] 0 <= p < q && refs_spec(dv[p].1).contains(dv[q].0) by {
        assert(referenced_earlier(g, en, queue@, q));
        let p = choose|p: int| 0 <= p < q && #[trigger] refs_spec(class_definition_spec(g, en, g[queue@[p] as int])).contains(
            g[queue@[q] as int].name,
        );
        assert(dv[p] == (g[queue@[p] as int].name, class_definition_spec(g, en, g[queue@[p] as int])));
        assert(dv[q] == (g[queue@[q] as int].name, class_definition_spec(g, en, g[queue@[q] as int])));
        assert(refs_spec(dv[p].1).contains(dv[q].0));
    }
    assert forall|q: int| 0 <= q < dv.len() implies name_index(cn, (#[trigger] dv[q]).0) >= 0 && dv[q].1
        == class_definition_spec(g, en, g[name_index(cn, dv[q].0)]) by {
        lemma_first_name(cn, g[queue@[q] as int].name, queue@[q] as int);
    }
    assert forall|a: int, b: int| 0 <= a < dv.len() && 0 <= b < dv.len() && a != b implies dv[a].0 != dv[b].0 by {
        assert(dv[a] == (g[queue@[a] as int].name, class_definition_spec(g, en, g[queue@[a] as int])));
        assert(dv[b] == (g[queue@[b] as int].name, class_definition_spec(g, en, g[queue@[b] as int])));
        if dv[a].0 == dv[b].0 {
            lemma_first_name(cn, g[queue@[a] as int].name, queue@[a] as int);
            lemma_first_name(cn, g[queue@[b] as int].name, queue@[b] as int);
        }
    }
    assert forall|q: int, r: Seq<char>|
        0 <= q < dv.len() && #[trigger] refs_spec(dv[q].1).contains(r) && name_index(cn, r) >= 0
            implies exists|q2: int| 0 <= q2 < dv.len() && #[trigger] dv[q2].0 == r by {
        let i = name_index(cn, r);
        assert(queued@[i]);
        let q2 = choose|q2: int| 0 <= q2 < queue@.len() && queue@[q2] == i;
        assert(dv[q2] == (g[queue@[q2] as int].name, class_definition_spec(g, en, g[queue@[q2] as int])));
        assert(first_name_at(cn, r, i)) by {
            assert(exists|k: int| first_name_at(cn, r, k));
        }
    }
    assert(dv[0] == (g[root_idx as int].name, class_definition_spec(g, en, g[root_idx as int])));
    Ok(SchemaDocument { root: String::from_str(root_type), definitions: defs })
}

/// The root class of each kind of document; an unknown kind asks for a module.
pub open spec fn root_for_spec(kind: Seq<char>) -> Seq<char> {
    if kind == "template"@ {
        "Template"@
    } else if kind == "project"@ {
        "Project"@
    } else {
        "Module"@
    }
}

/// The root class for a kind of document: `template` and `project` name
/// their own roots, anything else falls back to `Module`.
pub fn root_type_for(schema_type: &str) -> (r: String)
    ensures
        r@ == root_for_spec(schema_type@),
{
    if same_text(schema_type, "template") {
        String::from_str("Template")
    } else if same_text(schema_type, "project") {
        String::from_str("Project")
    } else {
        String::from_str("Module")
    }
}

} // verus!
