//! Properties that hold of every schema the builder produces.
use vstd::prelude::*;

use crate::render::document_json;
use crate::hierarchy::{children_of, resolved, resolved_class};
use crate::schema::{
    class_definition_spec, effective_properties, enum_schema_spec, existing, inherited,
    live_values, merge_props, outdated_count, property_schema_spec, required_names,
    defs_exact, prop_named, schema_definitions, DefinitionView, Shape, TypeSchemaView,
};
use crate::types::{class_names, enum_names, name_index, ClassView, EntryView, EnumView, PropertyView};

verus! {

proof fn lemma_required_named(ps: Seq<PropertyView>, n: Seq<char>)
    requires
        required_names(ps).contains(n),
    ensures
        exists|k: int| 0 <= k < ps.len() && (#[trigger] ps[k]).name == n && ps[k].required(),
    decreases ps.len(),
{
    let r = required_names(ps.drop_last());
    if r.contains(n) {
        lemma_required_named(ps.drop_last(), n);
        let k = choose|k: int| 0 <= k < ps.drop_last().len() && (#[trigger] ps.drop_last()[k]).name == n && ps.drop_last()[k].required();
        assert(ps[k] == ps.drop_last()[k]);
    } else {
        assert(ps[ps.len() - 1].name == n);
    }
}

/// A property that is nullable or has a default is never required: when no
/// effective property of that name is required, the name is not in the
/// definition's required list.
pub proof fn law_optional_not_required(g: Seq<ClassView>, en: Seq<EnumView>, c: ClassView, n: Seq<char>)
    requires
        forall|k: int|
            0 <= k < effective_properties(g, c).len() && (#[trigger] effective_properties(g, c)[k]).name == n
                ==> effective_properties(g, c)[k].is_nullable || effective_properties(g, c)[k].default_value is Some,
    ensures
        class_definition_spec(g, en, c) matches DefinitionView::Object(o) ==> !o.required.contains(n),
{
    let all = effective_properties(g, c);
    if required_names(all).contains(n) {
        lemma_required_named(all, n);
    }
}

proof fn lemma_existing_all(g: Seq<ClassView>, ns: Seq<Seq<char>>)
    requires
        forall|k: int| 0 <= k < ns.len() ==> name_index(class_names(g), #[trigger] ns[k]) >= 0,
    ensures
        existing(g, ns) == ns,
    decreases ns.len(),
{
    if ns.len() > 0 {
        lemma_existing_all(g, ns.drop_last());
        assert(ns.drop_last().push(ns.last()) =~= ns);
    }
}

/// A sealed class with subclasses that all name classes is defined as
/// exactly one alternative per subclass, in order.
pub proof fn law_sealed_alternatives(g: Seq<ClassView>, en: Seq<EnumView>, c: ClassView)
    requires
        c.is_sealed,
        c.subclasses.len() > 0,
        forall|k: int| 0 <= k < c.subclasses.len() ==> name_index(class_names(g), #[trigger] c.subclasses[k]) >= 0,
    ensures
        class_definition_spec(g, en, c) == DefinitionView::Variants(c.subclasses),
{
    lemma_existing_all(g, c.subclasses);
}

proof fn lemma_children_are_classes(s: Seq<ClassView>, n: Seq<char>)
    ensures
        forall|k: int| 0 <= k < children_of(s, n).len() ==> exists|i: int| 0 <= i < s.len() && s[i].name == #[trigger] children_of(s, n)[k],
    decreases s.len(),
{
    if s.len() > 0 {
        lemma_children_are_classes(s.drop_last(), n);
        let r = children_of(s.drop_last(), n);
        assert forall|k: int| 0 <= k < children_of(s, n).len() implies exists|i: int| 0 <= i < s.len() && s[i].name == #[trigger] children_of(s, n)[k] by {
            if k < r.len() {
                let i = choose|i: int| 0 <= i < s.drop_last().len() && s.drop_last()[i].name == r[k];
                assert(s[i].name == children_of(s, n)[k]);
            } else {
                assert(s[s.len() - 1].name == children_of(s, n)[k]);
            }
        }
    }
}

proof fn lemma_name_present(names: Seq<Seq<char>>, n: Seq<char>, i: int)
    requires
        0 <= i < names.len(),
        names[i] == n,
    ensures
        name_index(names, n) >= 0,
    decreases i,
{
    if exists|j: int| 0 <= j < i && names[j] == n {
        let j = choose|j: int| 0 <= j < i && names[j] == n;
        lemma_name_present(names, n, j);
    } else {
        assert(crate::types::first_name_at(names, n, i));
    }
}

/// In a resolved graph, every sealed class with subclasses is defined as
/// exactly one alternative per subclass: none is dropped.
pub proof fn law_resolved_sealed_alternatives(s: Seq<ClassView>, en: Seq<EnumView>, i: int)
    requires
        0 <= i < s.len(),
        s[i].is_sealed,
        children_of(s, s[i].name).len() > 0,
    ensures
        class_definition_spec(resolved(s), en, resolved(s)[i]) == DefinitionView::Variants(children_of(s, s[i].name)),
        resolved(s)[i].subclasses == children_of(s, s[i].name),
{
    let r = resolved(s);
    let ch = children_of(s, s[i].name);
    assert(r[i] == resolved_class(s, s[i]));
    assert(class_names(r) =~= class_names(s));
    lemma_children_are_classes(s, s[i].name);
    assert forall|k: int| 0 <= k < ch.len() implies name_index(class_names(r), #[trigger] ch[k]) >= 0 by {
        let j = choose|j: int| 0 <= j < s.len() && s[j].name == ch[k];
        assert(class_names(s)[j] == ch[k]);
        lemma_name_present(class_names(s), ch[k], j);
    }
    law_sealed_alternatives(r, en, r[i]);
}

/// The allowed values of an enum are the values of its entries that are not
/// outdated: as many as the entries less the outdated ones, each the value of
/// an entry that is not outdated.
pub proof fn law_enum_values_live(e: EnumView)
    ensures
        enum_schema_spec(e).values.len() + outdated_count(e.entries) == e.entries.len(),
        forall|k: int| 0 <= k < enum_schema_spec(e).values.len() ==> exists|j: int|
            0 <= j < e.entries.len() && !e.entries[j].is_outdated && e.entries[j].schema_value
                == #[trigger] enum_schema_spec(e).values[k],
{
    lemma_live_values(e.entries);
    let v = enum_schema_spec(e).values;
    assert(v == live_values(e.entries));
    assert forall|k: int| 0 <= k < v.len() implies exists|j: int|
        0 <= j < e.entries.len() && !e.entries[j].is_outdated && e.entries[j].schema_value == #[trigger] v[k] by {
        assert(live_values(e.entries)[k] == v[k]);
    }
}

proof fn lemma_live_values(es: Seq<EntryView>)
    ensures
        live_values(es).len() + outdated_count(es) == es.len(),
        forall|k: int| 0 <= k < live_values(es).len() ==> exists|j: int|
            0 <= j < es.len() && !es[j].is_outdated && es[j].schema_value == #[trigger] live_values(es)[k],
    decreases es.len(),
{
    if es.len() > 0 {
        let d = es.drop_last();
        lemma_live_values(d);
        assert forall|k: int| 0 <= k < live_values(es).len() implies exists|j: int|
            0 <= j < es.len() && !es[j].is_outdated && es[j].schema_value == #[trigger] live_values(es)[k] by {
            if k < live_values(d).len() {
                let j = choose|j: int| 0 <= j < d.len() && !d[j].is_outdated && d[j].schema_value == live_values(d)[k];
                assert(es[j] == d[j]);
            } else {
                assert(es[es.len() - 1].schema_value == live_values(es)[k]);
            }
        }
    }
}

proof fn lemma_merge_prefix(acc: Seq<PropertyView>, extra: Seq<PropertyView>)
    ensures
        merge_props(acc, extra).len() >= acc.len(),
        merge_props(acc, extra).subrange(0, acc.len() as int) == acc,
    decreases extra.len(),
{
    if extra.len() > 0 {
        lemma_merge_prefix(acc, extra.drop_last());
        let r = merge_props(acc, extra.drop_last());
        assert(r.push(extra.last()).subrange(0, acc.len() as int) =~= r.subrange(0, acc.len() as int));
    }
}

proof fn lemma_inherited_prefix(g: Seq<ClassView>, acc: Seq<PropertyView>, parent: Option<Seq<char>>, fuel: nat)
    ensures
        inherited(g, acc, parent, fuel).len() >= acc.len(),
        inherited(g, acc, parent, fuel).subrange(0, acc.len() as int) == acc,
    decreases fuel,
{
    if fuel > 0 {
        if let Some(pn) = parent {
            let i = name_index(class_names(g), pn);
            if i >= 0 {
                let m = merge_props(acc, g[i].properties);
                lemma_merge_prefix(acc, g[i].properties);
                lemma_inherited_prefix(g, m, g[i].parent, (fuel - 1) as nat);
                let r = inherited(g, m, g[i].parent, (fuel - 1) as nat);
                assert(r.subrange(0, acc.len() as int) =~= r.subrange(0, m.len() as int).subrange(0, acc.len() as int));
            }
        }
    } else {
        assert(acc.subrange(0, acc.len() as int) =~= acc);
    }
    if fuel == 0 || parent is None || name_index(class_names(g), parent->0) < 0 {
        assert(acc.subrange(0, acc.len() as int) =~= acc);
    }
}

/// A class's own properties come first, in declaration order; right after
/// them come the direct parent's properties, in the parent's order, each
/// one skipped whose name is already present.
pub proof fn law_property_order(g: Seq<ClassView>, c: ClassView)
    ensures
        effective_properties(g, c).len() >= c.properties.len(),
        effective_properties(g, c).subrange(0, c.properties.len() as int) == c.properties,
        g.len() > 0 && c.parent is Some && name_index(class_names(g), c.parent->0) >= 0 ==> {
            let m = merge_props(c.properties, g[name_index(class_names(g), c.parent->0)].properties);
            &&& effective_properties(g, c).len() >= m.len()
            &&& effective_properties(g, c).subrange(0, m.len() as int) == m
        },
{
    lemma_inherited_prefix(g, c.properties, c.parent, g.len());
    if g.len() > 0 && c.parent is Some && name_index(class_names(g), c.parent->0) >= 0 {
        let i = name_index(class_names(g), c.parent->0);
        let m = merge_props(c.properties, g[i].properties);
        lemma_inherited_prefix(g, m, g[i].parent, (g.len() - 1) as nat);
    }
}

/// A map-shaped property whose element type names an enum is an array of
/// single-key objects whose values follow that enum's allowed values.
pub proof fn law_map_of_enum(g: Seq<ClassView>, en: Seq<EnumView>, p: PropertyView)
    requires
        p.is_map,
        !p.is_list,
        name_index(enum_names(en), p.elem_type) >= 0,
    ensures
        property_schema_spec(g, en, p).shape == Shape::KeyedList,
        property_schema_spec(g, en, p).base == TypeSchemaView::Enumeration(
            enum_schema_spec(en[name_index(enum_names(en), p.elem_type)]),
        ),
{
}

/// Building is a function of the graph: two documents built from the same
/// graph give the same definition to every name they both define.
pub proof fn law_definitions_agree(
    g: Seq<ClassView>,
    en: Seq<EnumView>,
    d1: Seq<(Seq<char>, DefinitionView)>,
    d2: Seq<(Seq<char>, DefinitionView)>,
)
    requires
        defs_exact(g, en, d1),
        defs_exact(g, en, d2),
    ensures
        forall|a: int, b: int|
            0 <= a < d1.len() && 0 <= b < d2.len() && (#[trigger] d1[a]).0 == (#[trigger] d2[b]).0 ==> d1[a].1
                == d2[b].1,
{
}

/// No two properties share a name.
pub open spec fn prop_names_unique(ps: Seq<PropertyView>) -> bool {
    forall|i: int, j: int| 0 <= i < ps.len() && 0 <= j < ps.len() && i != j ==> ps[i].name != ps[j].name
}

proof fn lemma_merge_unique(acc: Seq<PropertyView>, extra: Seq<PropertyView>)
    requires
        prop_names_unique(acc),
    ensures
        prop_names_unique(merge_props(acc, extra)),
    decreases extra.len(),
{
    if extra.len() > 0 {
        lemma_merge_unique(acc, extra.drop_last());
        let r = merge_props(acc, extra.drop_last());
        if !prop_named(r, extra.last().name) {
            let t = r.push(extra.last());
            assert forall|i: int, j: int| 0 <= i < t.len() && 0 <= j < t.len() && i != j implies t[i].name != t[j].name by {
                if i == r.len() {
                    assert(r[j].name != extra.last().name);
                } else if j == r.len() {
                    assert(r[i].name != extra.last().name);
                }
            }
        }
    }
}

proof fn lemma_inherited_unique(g: Seq<ClassView>, acc: Seq<PropertyView>, parent: Option<Seq<char>>, fuel: nat)
    requires
        prop_names_unique(acc),
    ensures
        prop_names_unique(inherited(g, acc, parent, fuel)),
    decreases fuel,
{
    if fuel > 0 {
        if let Some(pn) = parent {
            let i = name_index(class_names(g), pn);
            if i >= 0 {
                lemma_merge_unique(acc, g[i].properties);
                lemma_inherited_unique(g, merge_props(acc, g[i].properties), g[i].parent, (fuel - 1) as nat);
            }
        }
    }
}

/// When a class's own properties have distinct names, a property that is
/// nullable or has a default never has its name in the required list.
pub proof fn law_nullable_never_required(g: Seq<ClassView>, en: Seq<EnumView>, c: ClassView, k: int)
    requires
        prop_names_unique(c.properties),
        0 <= k < effective_properties(g, c).len(),
        effective_properties(g, c)[k].is_nullable || effective_properties(g, c)[k].default_value is Some,
    ensures
        class_definition_spec(g, en, c) matches DefinitionView::Object(o) ==> !o.required.contains(
            effective_properties(g, c)[k].name,
        ),
{
    let all = effective_properties(g, c);
    lemma_inherited_unique(g, c.properties, c.parent, g.len());
    law_optional_not_required(g, en, c, all[k].name);
}

/// The rendered document is a function of the graph and the root: two runs
/// on the same input give the same JSON.
pub proof fn law_same_input_same_document(
    g: Seq<ClassView>,
    en: Seq<EnumView>,
    root: Seq<char>,
    d1: Seq<(Seq<char>, DefinitionView)>,
    d2: Seq<(Seq<char>, DefinitionView)>,
)
    requires
        d1 == schema_definitions(g, en, root),
        d2 == schema_definitions(g, en, root),
    ensures
        document_json(root, d1) == document_json(root, d2),
{
}

/// When the direct parent has no parent of its own, a class's properties are
/// exactly its own in declaration order followed by the parent's, in the
/// parent's order, each skipped whose name is already present.
pub proof fn law_property_order_with_parent(g: Seq<ClassView>, c: ClassView)
    requires
        c.parent is Some,
        name_index(class_names(g), c.parent->0) >= 0,
        g[name_index(class_names(g), c.parent->0)].parent is None,
    ensures
        effective_properties(g, c) == merge_props(
            c.properties,
            g[name_index(class_names(g), c.parent->0)].properties,
        ),
{
    let i = name_index(class_names(g), c.parent->0);
    assert(class_names(g).len() == g.len());
    let m = merge_props(c.properties, g[i].properties);
    assert(inherited(g, m, g[i].parent, (g.len() - 1) as nat) == m);
}

} // verus!
