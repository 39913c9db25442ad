//! The type graph recovered from declaration text.
use vstd::prelude::*;

use indexmap::IndexMap;

use crate::text::{
    chars_of, find_first, lemma_push_deep, find_last, first_at, has_prefix, last_at, prefix_at, same_text,
    string_range, trim, trim_range,
};

verus! {

/// One declared type.
pub struct ClassDef {
    pub name: String,
    pub doc: Option<String>,
    pub properties: Vec<Property>,
    pub is_sealed: bool,
    pub parent: Option<String>,
    /// Names of the classes whose parent is this one; filled for sealed classes.
    pub subclasses: Vec<String>,
}

/// One declared field of a class.
pub struct Property {
    pub name: String,
    pub elem_type: String,
    pub doc: Option<String>,
    pub is_nullable: bool,
    pub is_list: bool,
    pub is_map: bool,
    pub default_value: Option<String>,
    /// Annotation tags as written (`Name` or `Name(args)`), each once, in order of first appearance.
    pub annotations: Vec<String>,
}

/// A closed set of named values.
pub struct EnumDef {
    pub name: String,
    pub doc: Option<String>,
    pub entries: Vec<EnumEntry>,
    pub is_order_sensitive: bool,
}

/// One value of an enum.
pub struct EnumEntry {
    pub name: String,
    pub schema_value: String,
    pub doc: Option<String>,
    pub is_outdated: bool,
}

/// Mathematical form of a `Property`.
pub struct PropertyView {
    pub name: Seq<char>,
    pub elem_type: Seq<char>,
    pub doc: Option<Seq<char>>,
    pub is_nullable: bool,
    pub is_list: bool,
    pub is_map: bool,
    pub default_value: Option<Seq<char>>,
    pub annotations: Seq<Seq<char>>,
}

/// Mathematical form of a `ClassDef`.
pub struct ClassView {
    pub name: Seq<char>,
    pub doc: Option<Seq<char>>,
    pub properties: Seq<PropertyView>,
    pub is_sealed: bool,
    pub parent: Option<Seq<char>>,
    pub subclasses: Seq<Seq<char>>,
}

/// Mathematical form of an `EnumEntry`.
pub struct EntryView {
    pub name: Seq<char>,
    pub schema_value: Seq<char>,
    pub doc: Option<Seq<char>>,
    pub is_outdated: bool,
}

/// Mathematical form of an `EnumDef`.
pub struct EnumView {
    pub name: Seq<char>,
    pub doc: Option<Seq<char>>,
    pub entries: Seq<EntryView>,
    pub is_order_sensitive: bool,
}

impl View for Property {
    type V = PropertyView;

    open spec fn view(&self) -> PropertyView {
        PropertyView {
            name: self.name@,
            elem_type: self.elem_type@,
            doc: self.doc.deep_view(),
            is_nullable: self.is_nullable,
            is_list: self.is_list,
            is_map: self.is_map,
            default_value: self.default_value.deep_view(),
            annotations: self.annotations.deep_view(),
        }
    }
}

impl View for ClassDef {
    type V = ClassView;

    open spec fn view(&self) -> ClassView {
        ClassView {
            name: self.name@,
            doc: self.doc.deep_view(),
            properties: self.properties@.map_values(|p: Property| p@),
            is_sealed: self.is_sealed,
            parent: self.parent.deep_view(),
            subclasses: self.subclasses.deep_view(),
        }
    }
}

impl View for EnumEntry {
    type V = EntryView;

    open spec fn view(&self) -> EntryView {
        EntryView {
            name: self.name@,
            schema_value: self.schema_value@,
            doc: self.doc.deep_view(),
            is_outdated: self.is_outdated,
        }
    }
}

impl View for EnumDef {
    type V = EnumView;

    open spec fn view(&self) -> EnumView {
        EnumView {
            name: self.name@,
            doc: self.doc.deep_view(),
            entries: self.entries@.map_values(|e: EnumEntry| e@),
            is_order_sensitive: self.is_order_sensitive,
        }
    }
}

/// The pieces of `s` between occurrences of `c`, in order (one piece when `c` is absent).
pub open spec fn split_pieces(s: Seq<char>, c: char) -> Seq<Seq<char>>
    decreases s.len(),
{
    if s.len() == 0 {
        seq![Seq::<char>::empty()]
    } else {
        let r = split_pieces(s.drop_last(), c);
        if s.last() == c {
            r.push(Seq::<char>::empty())
        } else {
            r.update(r.len() - 1, r.last().push(s.last()))
        }
    }
}

/// The trimmed pieces that are not empty, in order.
pub open spec fn kept_values(pieces: Seq<Seq<char>>) -> Seq<Seq<char>>
    decreases pieces.len(),
{
    if pieces.len() == 0 {
        Seq::empty()
    } else {
        let r = kept_values(pieces.drop_last());
        if trim(pieces.last()).len() > 0 {
            r.push(trim(pieces.last()))
        } else {
            r
        }
    }
}

/// The comma-separated values between the first `(` and the last `)` of an annotation.
pub open spec fn annotation_values(a: Seq<char>) -> Seq<Seq<char>> {
    if exists|i: int| first_at(a, '(', i) {
        let i = choose|i: int| first_at(a, '(', i);
        if exists|j: int| last_at(a, ')', j) {
            let j = choose|j: int| last_at(a, ')', j);
            if i < j {
                kept_values(split_pieces(a.subrange(i + 1, j), ','))
            } else {
                Seq::empty()
            }
        } else {
            Seq::empty()
        }
    } else {
        Seq::empty()
    }
}

/// The values of every annotation that starts with `p`, in annotation order.
pub open spec fn values_with_prefix(anns: Seq<Seq<char>>, p: Seq<char>) -> Seq<Seq<char>>
    decreases anns.len(),
{
    if anns.len() == 0 {
        Seq::empty()
    } else {
        let r = values_with_prefix(anns.drop_last(), p);
        if has_prefix(anns.last(), p) {
            r + annotation_values(anns.last())
        } else {
            r
        }
    }
}

impl PropertyView {
    pub open spec fn has(self, a: Seq<char>) -> bool {
        self.annotations.contains(a)
    }

    pub open spec fn hidden(self) -> bool {
        self.has("HiddenFromCompletion"@)
    }

    pub open spec fn modifier_aware(self) -> bool {
        self.has("ModifierAware"@)
    }

    pub open spec fn platforms(self) -> Seq<Seq<char>> {
        values_with_prefix(self.annotations, "PlatformSpecific("@)
    }

    pub open spec fn product_types(self) -> Seq<Seq<char>> {
        values_with_prefix(self.annotations, "ProductTypeSpecific("@)
    }

    /// Whether the property must be present in the enclosing object.
    pub open spec fn required(self) -> bool {
        !self.is_nullable && self.default_value is None
    }
}

impl Property {
    /// Whether this property carries exactly the tag `annotation`.
    pub fn has_annotation(&self, annotation: &str) -> (r: bool)
        ensures
            r == self@.has(annotation@),
    {
        let mut i: usize = 0;
        while i < self.annotations.len()
            invariant
                i <= self.annotations@.len(),
                forall|k: int| 0 <= k < i ==> self.annotations@[k]@ != annotation@,
            decreases self.annotations@.len() - i,
        {
            if same_text(self.annotations[i].as_str(), annotation) {
                assert(self@.annotations[i as int] == annotation@);
                return true;
            }
            i = i + 1;
        }
        assert(!self@.annotations.contains(annotation@)) by {
            if self@.annotations.contains(annotation@) {
                let k = choose|k: int| 0 <= k < self@.annotations.len() && self@.annotations[k] == annotation@;
                assert(self.annotations@[k]@ == annotation@);
            }
        }
        false
    }

    /// Whether the property is left out of completion.
    pub fn is_hidden(&self) -> (r: bool)
        ensures
            r == self@.hidden(),
    {
        self.has_annotation("HiddenFromCompletion")
    }

    /// Whether the property is a shorthand.
    pub fn is_shorthand(&self) -> (r: bool)
        ensures
            r == self@.has("Shorthand"@),
    {
        self.has_annotation("Shorthand")
    }

    /// Whether the property's key may carry a test prefix and a platform suffix.
    pub fn is_modifier_aware(&self) -> (r: bool)
        ensures
            r == self@.modifier_aware(),
    {
        self.has_annotation("ModifierAware")
    }

    /// The platforms listed by the property's platform restrictions.
    pub fn get_platform_specific(&self) -> (r: Vec<String>)
        ensures
            r.deep_view() == self@.platforms(),
    {
        Self::values_of_prefixed(&self.annotations, "PlatformSpecific(")
    }

    /// The product types listed by the property's product-type restrictions.
    pub fn get_product_type_specific(&self) -> (r: Vec<String>)
        ensures
            r.deep_view() == self@.product_types(),
    {
        Self::values_of_prefixed(&self.annotations, "ProductTypeSpecific(")
    }

    fn values_of_prefixed(anns: &Vec<String>, prefix: &str) -> (r: Vec<String>)
        ensures
            r.deep_view() == values_with_prefix(anns.deep_view(), prefix@),
    {
        let mut out: Vec<String> = Vec::new();
        let mut i: usize = 0;
        while i < anns.len()
            invariant
                i <= anns@.len(),
                out.deep_view() == values_with_prefix(anns.deep_view().subrange(0, i as int), prefix@),
            decreases anns@.len() - i,
        {
            let cs = chars_of(anns[i].as_str());
            let ghost before = out.deep_view();
            proof {
                let s = anns.deep_view().subrange(0, i + 1);
                assert(s.drop_last() =~= anns.deep_view().subrange(0, i as int));
                assert(s.last() == cs@);
            }
            if prefix_at(&cs, 0, cs.len(), prefix) {
                assert(cs@.subrange(0, cs@.len() as int) =~= cs@);
                let vals = Self::extract_annotation_values(anns[i].as_str());
                let mut k: usize = 0;
                while k < vals.len()
                    invariant
                        k <= vals@.len(),
                        out.deep_view() == before + vals.deep_view().subrange(0, k as int),
                    decreases vals@.len() - k,
                {
                    let ghost prev = out;
                    out.push(vals[k].clone());
                    proof {
                        lemma_push_deep(prev, out, vals@[k as int]);
                    }
                    assert(out.deep_view() =~= before + vals.deep_view().subrange(0, k + 1));
                    k = k + 1;
                }
                assert(vals.deep_view().subrange(0, k as int) =~= vals.deep_view());
            } else {
                assert(cs@.subrange(0, cs@.len() as int) =~= cs@);
            }
            i = i + 1;
        }
        assert(anns.deep_view().subrange(0, i as int) =~= anns.deep_view());
        out
    }

    /// The values of an annotation written `Name(V1, V2)`: the comma-separated
    /// parts between the first `(` and the last `)`, trimmed, empty parts left out.
    pub fn extract_annotation_values(annotation: &str) -> (r: Vec<String>)
        ensures
            r.deep_view() == annotation_values(annotation@),
    {
        let cs = chars_of(annotation);
        let n = cs.len();
        assert(cs@.subrange(0, n as int) =~= cs@);
        let open = match find_first(&cs, 0, n, '(') {
            Some(i) => i,
            None => {
                assert(!exists|i: int| first_at(annotation@, '(', i));
                return Vec::new();
            },
        };
        assert(forall|k: int| first_at(annotation@, '(', k) ==> k == open);
        let close = match find_last(&cs, 0, n, ')') {
            Some(j) => j,
            None => {
                assert(!exists|j: int| last_at(annotation@, ')', j));
                return Vec::new();
            },
        };
        assert(forall|k: int| last_at(annotation@, ')', k) ==> k == close);
        if close < open {
            return Vec::new();
        }
        let ghost mut pieces: Seq<Seq<char>> = Seq::empty();
        let mut out: Vec<String> = Vec::new();
        let mut start: usize = open + 1;
        let mut i: usize = open + 1;
        assert(cs@.subrange(open + 1, i as int) =~= Seq::<char>::empty());
        while i < close
            invariant
                open + 1 <= start <= i <= close < n == cs@.len(),
                split_pieces(cs@.subrange(open + 1, i as int), ',') == pieces.push(
                    cs@.subrange(start as int, i as int),
                ),
                out.deep_view() == kept_values(pieces),
            decreases close - i,
        {
            assert(cs@.subrange(open + 1, i + 1).drop_last() =~= cs@.subrange(open + 1, i as int));
            if cs[i] == ',' {
                let (a, b) = trim_range(&cs, start, i);
                proof {
                    let p = pieces.push(cs@.subrange(start as int, i as int));
                    assert(p.drop_last() =~= pieces);
                    pieces = p;
                }
                if a < b {
                    let ghost prev = out;
                    out.push(string_range(&cs, a, b));
                    proof {
                        lemma_push_deep(prev, out, out@.last());
                    }
                }
                assert(cs@.subrange(i + 1, i + 1) =~= Seq::<char>::empty());
                start = i + 1;
            } else {
                assert(cs@.subrange(start as int, i + 1) =~= cs@.subrange(start as int, i as int).push(cs@[i as int]));
                assert(pieces.push(cs@.subrange(start as int, i as int)).update(pieces.len() as int, cs@.subrange(start as int, i + 1)) =~= pieces.push(cs@.subrange(start as int, i + 1)));
            }
            i = i + 1;
        }
        let (a, b) = trim_range(&cs, start, close);
        proof {
            let p = pieces.push(cs@.subrange(start as int, close as int));
            assert(p.drop_last() =~= pieces);
        }
        if a < b {
            let ghost prev = out;
            out.push(string_range(&cs, a, b));
            proof {
                lemma_push_deep(prev, out, out@.last());
            }
        }
        out
    }
}

} // verus!

verus! {

#[verifier::external_type_specification]
#[verifier::external_body]
#[verifier::reject_recursive_types(K)]
#[verifier::reject_recursive_types(V)]
#[verifier::reject_recursive_types(S)]
pub struct ExIndexMap<K, V, S>(IndexMap<K, V, S>);

/// All discovered classes and enums, each keyed by its name, in order of
/// first insertion.
pub struct ParsingContext {
    pub classes: IndexMap<String, ClassDef>,
    pub enums: IndexMap<String, EnumDef>,
    pub verbose: bool,
}

/// The entries of a map of classes, in order: key and class.
pub uninterp spec fn class_entries(m: IndexMap<String, ClassDef>) -> Seq<(Seq<char>, ClassView)>;

/// The entries of a map of enums, in order: key and enum.
pub uninterp spec fn enum_entries(m: IndexMap<String, EnumDef>) -> Seq<(Seq<char>, EnumView)>;

/// The entries after inserting `v` under `k`: an entry with that key keeps
/// its place and takes the new value, else the pair goes last.
pub open spec fn upsert<T>(e: Seq<(Seq<char>, T)>, k: Seq<char>, v: T) -> Seq<(Seq<char>, T)> {
    if exists|i: int| 0 <= i < e.len() && e[i].0 == k {
        let i = choose|i: int| 0 <= i < e.len() && e[i].0 == k;
        e.update(i, (k, v))
    } else {
        e.push((k, v))
    }
}

proof fn lemma_upsert_at<T>(e: Seq<(Seq<char>, T)>, k: Seq<char>, v: T, i: int)
    requires
        0 <= i < e.len(),
        e[i].0 == k,
        forall|j: int| 0 <= j < e.len() && j != i ==> e[j].0 != k,
    ensures
        upsert(e, k, v) == e.update(i, (k, v)),
{
    let j = choose|j: int| 0 <= j < e.len() && e[j].0 == k;
    assert(j == i);
}

/// Relies on `IndexMap::new`: an empty map.
#[verifier::external_body]
fn new_class_map() -> (r: IndexMap<String, ClassDef>)
    ensures
        class_entries(r) == Seq::<(Seq<char>, ClassView)>::empty(),
{
    IndexMap::new()
}

/// Relies on `IndexMap::len`: the number of entries.
#[verifier::external_body]
fn class_map_len(m: &IndexMap<String, ClassDef>) -> (r: usize)
    ensures
        r == class_entries(*m).len(),
{
    m.len()
}

/// Relies on `IndexMap::get_index`: the entry at position `i`, if any.
#[verifier::external_body]
fn class_map_get(m: &IndexMap<String, ClassDef>, i: usize) -> (r: Option<(&String, &ClassDef)>)
    ensures
        match r {
            Some((k, v)) => i < class_entries(*m).len() && k@ == class_entries(*m)[i as int].0
                && v@ == class_entries(*m)[i as int].1,
            None => i >= class_entries(*m).len(),
        },
{
    m.get_index(i)
}

/// Relies on `IndexMap::get_index_of`: the position of key `k`, if present;
/// a map holds each key once.
#[verifier::external_body]
fn class_map_index_of(m: &IndexMap<String, ClassDef>, k: &str) -> (r: Option<usize>)
    ensures
        match r {
            Some(i) => i < class_entries(*m).len() && class_entries(*m)[i as int].0 == k@ && forall|j: int|
                0 <= j < class_entries(*m).len() && j != i ==> class_entries(*m)[j].0 != k@,
            None => forall|i: int| 0 <= i < class_entries(*m).len() ==> class_entries(*m)[i].0 != k@,
        },
{
    m.get_index_of(k)
}

/// Relies on `IndexMap::insert`: an existing key keeps its place and takes
/// the new value; a new key goes last.
#[verifier::external_body]
fn class_map_insert(m: &mut IndexMap<String, ClassDef>, k: String, v: ClassDef)
    ensures
        class_entries(*final(m)) == upsert(class_entries(*old(m)), k@, v@),
{
    m.insert(k, v);
}

/// Relies on `IndexMap::get_index_mut`: puts `v` in place of the value at
/// position `i` and hands back the value that was there.
#[verifier::external_body]
fn class_map_swap(m: &mut IndexMap<String, ClassDef>, i: usize, v: ClassDef) -> (r: ClassDef)
    requires
        i < class_entries(*old(m)).len(),
    ensures
        r@ == class_entries(*old(m))[i as int].1,
        class_entries(*final(m)) == class_entries(*old(m)).update(
            i as int,
            (class_entries(*old(m))[i as int].0, v@),
        ),
{
    std::mem::replace(m.get_index_mut(i).unwrap().1, v)
}

/// Relies on `IndexMap::new`: an empty map.
#[verifier::external_body]
fn new_enum_map() -> (r: IndexMap<String, EnumDef>)
    ensures
        enum_entries(r) == Seq::<(Seq<char>, EnumView)>::empty(),
{
    IndexMap::new()
}

/// Relies on `IndexMap::len`: the number of entries.
#[verifier::external_body]
fn enum_map_len(m: &IndexMap<String, EnumDef>) -> (r: usize)
    ensures
        r == enum_entries(*m).len(),
{
    m.len()
}

/// Relies on `IndexMap::get_index`: the entry at position `i`, if any.
#[verifier::external_body]
fn enum_map_get(m: &IndexMap<String, EnumDef>, i: usize) -> (r: Option<(&String, &EnumDef)>)
    ensures
        match r {
            Some((k, v)) => i < enum_entries(*m).len() && k@ == enum_entries(*m)[i as int].0
                && v@ == enum_entries(*m)[i as int].1,
            None => i >= enum_entries(*m).len(),
        },
{
    m.get_index(i)
}

/// Relies on `IndexMap::get_index_of`: the position of key `k`, if present;
/// a map holds each key once.
#[verifier::external_body]
fn enum_map_index_of(m: &IndexMap<String, EnumDef>, k: &str) -> (r: Option<usize>)
    ensures
        match r {
            Some(i) => i < enum_entries(*m).len() && enum_entries(*m)[i as int].0 == k@ && forall|j: int|
                0 <= j < enum_entries(*m).len() && j != i ==> enum_entries(*m)[j].0 != k@,
            None => forall|i: int| 0 <= i < enum_entries(*m).len() ==> enum_entries(*m)[i].0 != k@,
        },
{
    m.get_index_of(k)
}

/// Relies on `IndexMap::insert`: an existing key keeps its place and takes
/// the new value; a new key goes last.
#[verifier::external_body]
fn enum_map_insert(m: &mut IndexMap<String, EnumDef>, k: String, v: EnumDef)
    ensures
        enum_entries(*final(m)) == upsert(enum_entries(*old(m)), k@, v@),
{
    m.insert(k, v);
}

/// Names of a sequence of classes.
pub open spec fn class_names(s: Seq<ClassView>) -> Seq<Seq<char>> {
    s.map_values(|c: ClassView| c.name)
}

/// Names of a sequence of enums.
pub open spec fn enum_names(s: Seq<EnumView>) -> Seq<Seq<char>> {
    s.map_values(|e: EnumView| e.name)
}

/// `i` is the first position of `n` in `names`.
pub open spec fn first_name_at(names: Seq<Seq<char>>, n: Seq<char>, i: int) -> bool {
    0 <= i < names.len() && names[i] == n && forall|j: int| 0 <= j < i ==> names[j] != n
}

/// First position of `n` in `names`, or -1.
pub open spec fn name_index(names: Seq<Seq<char>>, n: Seq<char>) -> int {
    if exists|i: int| first_name_at(names, n, i) {
        choose|i: int| first_name_at(names, n, i)
    } else {
        -1
    }
}

/// The first position of a name is the one `name_index` gives.
pub proof fn lemma_first_name(names: Seq<Seq<char>>, n: Seq<char>, i: int)
    requires
        first_name_at(names, n, i),
    ensures
        name_index(names, n) == i,
{
    assert(forall|k: int| first_name_at(names, n, k) ==> k == i);
}

/// `s` with `c` put in place of the class of the same name, or appended.
pub open spec fn insert_class_spec(s: Seq<ClassView>, c: ClassView) -> Seq<ClassView> {
    let i = name_index(class_names(s), c.name);
    if i >= 0 {
        s.update(i, c)
    } else {
        s.push(c)
    }
}

/// `s` with `e` put in place of the enum of the same name, or appended.
pub open spec fn insert_enum_spec(s: Seq<EnumView>, e: EnumView) -> Seq<EnumView> {
    let i = name_index(enum_names(s), e.name);
    if i >= 0 {
        s.update(i, e)
    } else {
        s.push(e)
    }
}

/// Names that occur once each.
pub open spec fn unique_names(names: Seq<Seq<char>>) -> bool {
    forall|i: int, j: int| 0 <= i < names.len() && 0 <= j < names.len() && i != j ==> names[i] != names[j]
}

impl ParsingContext {
    pub open spec fn class_views(&self) -> Seq<ClassView> {
        class_entries(self.classes).map_values(|e: (Seq<char>, ClassView)| e.1)
    }

    pub open spec fn enum_views(&self) -> Seq<EnumView> {
        enum_entries(self.enums).map_values(|e: (Seq<char>, EnumView)| e.1)
    }

    /// Every class and enum is keyed by its own name, so each name occurs once.
    pub open spec fn wf(&self) -> bool {
        &&& forall|i: int| 0 <= i < class_entries(self.classes).len() ==> (#[trigger] class_entries(self.classes)[i]).0 == class_entries(self.classes)[i].1.name
        &&& forall|i: int| 0 <= i < enum_entries(self.enums).len() ==> (#[trigger] enum_entries(self.enums)[i]).0 == enum_entries(self.enums)[i].1.name
        &&& unique_names(class_names(self.class_views()))
        &&& unique_names(enum_names(self.enum_views()))
    }

    /// An empty context.
    pub fn new(verbose: bool) -> (r: Self)
        ensures
            r.wf(),
            r.class_views().len() == 0,
            r.enum_views().len() == 0,
            r.verbose == verbose,
    {
        let r = ParsingContext { classes: new_class_map(), enums: new_enum_map(), verbose };
        assert(class_names(r.class_views()) =~= Seq::<Seq<char>>::empty());
        assert(enum_names(r.enum_views()) =~= Seq::<Seq<char>>::empty());
        r
    }

    /// Whether every class and enum is keyed by its own name.
    pub fn names_match_keys(&self) -> (r: bool)
        ensures
            r == self.wf(),
    {
        let n = class_map_len(&self.classes);
        let mut i: usize = 0;
        while i < n
            invariant
                i <= n == class_entries(self.classes).len(),
                forall|k: int| 0 <= k < i ==> (#[trigger] class_entries(self.classes)[k]).0 == class_entries(self.classes)[k].1.name,
                forall|k: int, l: int| 0 <= k < i && 0 <= l < n && k != l ==> class_entries(self.classes)[k].0 != class_entries(self.classes)[l].0,
            decreases n - i,
        {
            let (k, c) = class_map_get(&self.classes, i).unwrap();
            if !same_text(k.as_str(), c.name.as_str()) {
                return false;
            }
            match class_map_index_of(&self.classes, c.name.as_str()) {
                Some(p) => {
                    if p != i {
                        return false;
                    }
                },
                None => {
                    return false;
                },
            }
            i = i + 1;
        }
        let m = enum_map_len(&self.enums);
        let mut j: usize = 0;
        while j < m
            invariant
                j <= m == enum_entries(self.enums).len(),
                forall|k: int| 0 <= k < j ==> (#[trigger] enum_entries(self.enums)[k]).0 == enum_entries(self.enums)[k].1.name,
                forall|k: int, l: int| 0 <= k < j && 0 <= l < m && k != l ==> enum_entries(self.enums)[k].0 != enum_entries(self.enums)[l].0,
            decreases m - j,
        {
            let (k, e) = enum_map_get(&self.enums, j).unwrap();
            if !same_text(k.as_str(), e.name.as_str()) {
                return false;
            }
            match enum_map_index_of(&self.enums, e.name.as_str()) {
                Some(p) => {
                    if p != j {
                        return false;
                    }
                },
                None => {
                    return false;
                },
            }
            j = j + 1;
        }
        proof {
            let cn = class_names(self.class_views());
            assert forall|a: int, b: int| 0 <= a < cn.len() && 0 <= b < cn.len() && a != b implies cn[a] != cn[b] by {
                assert(class_entries(self.classes)[a].0 == cn[a]);
                assert(class_entries(self.classes)[b].0 == cn[b]);
            }
            let en = enum_names(self.enum_views());
            assert forall|a: int, b: int| 0 <= a < en.len() && 0 <= b < en.len() && a != b implies en[a] != en[b] by {
                assert(enum_entries(self.enums)[a].0 == en[a]);
                assert(enum_entries(self.enums)[b].0 == en[b]);
            }
        }
        true
    }

    /// How many classes there are.
    pub fn class_count(&self) -> (r: usize)
        ensures
            r == self.class_views().len(),
    {
        class_map_len(&self.classes)
    }

    /// How many enums there are.
    pub fn enum_count(&self) -> (r: usize)
        ensures
            r == self.enum_views().len(),
    {
        enum_map_len(&self.enums)
    }

    /// The class at position `i`.
    pub fn class_at(&self, i: usize) -> (r: &ClassDef)
        requires
            i < self.class_views().len(),
        ensures
            r@ == self.class_views()[i as int],
    {
        class_map_get(&self.classes, i).unwrap().1
    }

    /// The enum at position `i`.
    pub fn enum_at(&self, i: usize) -> (r: &EnumDef)
        requires
            i < self.enum_views().len(),
        ensures
            r@ == self.enum_views()[i as int],
    {
        enum_map_get(&self.enums, i).unwrap().1
    }

    /// Position of the class named `name`.
    pub fn class_index(&self, name: &str) -> (r: Option<usize>)
        requires
            self.wf(),
        ensures
            match r {
                Some(i) => first_name_at(class_names(self.class_views()), name@, i as int),
                None => name_index(class_names(self.class_views()), name@) == -1,
            },
    {
        let ghost cn = class_names(self.class_views());
        match class_map_index_of(&self.classes, name) {
            Some(i) => {
                assert(cn[i as int] == name@);
                Some(i)
            },
            None => {
                assert forall|k: int| 0 <= k < cn.len() implies cn[k] != name@ by {
                    assert(class_entries(self.classes)[k].0 == cn[k]);
                }
                assert(!exists|k: int| first_name_at(cn, name@, k));
                None
            },
        }
    }

    /// Position of the enum named `name`.
    pub fn enum_index(&self, name: &str) -> (r: Option<usize>)
        requires
            self.wf(),
        ensures
            match r {
                Some(i) => first_name_at(enum_names(self.enum_views()), name@, i as int),
                None => name_index(enum_names(self.enum_views()), name@) == -1,
            },
    {
        let ghost en = enum_names(self.enum_views());
        match enum_map_index_of(&self.enums, name) {
            Some(i) => {
                assert(en[i as int] == name@);
                Some(i)
            },
            None => {
                assert forall|k: int| 0 <= k < en.len() implies en[k] != name@ by {
                    assert(enum_entries(self.enums)[k].0 == en[k]);
                }
                assert(!exists|k: int| first_name_at(en, name@, k));
                None
            },
        }
    }

    /// Adds `c` under its name, replacing a class of the same name where there is one.
    pub fn insert_class(&mut self, c: ClassDef)
        requires
            old(self).wf(),
        ensures
            final(self).wf(),
            final(self).class_views() == insert_class_spec(old(self).class_views(), c@),
            final(self).enums == old(self).enums,
            final(self).verbose == old(self).verbose,
    {
        let ghost cv = c@;
        let ghost e0 = class_entries(self.classes);
        let ghost v0 = self.class_views();
        let ghost cn = class_names(v0);
        let found = self.class_index(c.name.as_str());
        let key = c.name.clone();
        assert(key@ == cv.name);
        class_map_insert(&mut self.classes, key, c);
        let ghost e1 = class_entries(self.classes);
        assert(e1 == upsert(e0, cv.name, cv));
        match found {
            Some(i) => {
                proof {
                    lemma_first_name(cn, cv.name, i as int);
                    assert(e0[i as int].0 == cv.name);
                    assert forall|j: int| 0 <= j < e0.len() && j != i implies e0[j].0 != cv.name by {
                        assert(e0[j].0 == e0[j].1.name);
                        assert(cn[j] == e0[j].0);
                    }
                    lemma_upsert_at(e0, cv.name, cv, i as int);
                    assert(self.class_views() =~= v0.update(i as int, cv));
                    assert(class_names(self.class_views()) =~= cn.update(i as int, cv.name));
                }
            },
            None => {
                proof {
                    assert(forall|j: int| 0 <= j < cn.len() ==> cn[j] != cv.name) by {
                        if exists|j: int| 0 <= j < cn.len() && cn[j] == cv.name {
                            let j = choose|j: int| 0 <= j < cn.len() && cn[j] == cv.name;
                            assert(first_name_at(cn, cv.name, j) || exists|k: int| 0 <= k < j && cn[k] == cv.name);
                        }
                    }
                    assert(!exists|j: int| 0 <= j < e0.len() && e0[j].0 == cv.name) by {
                        if exists|j: int| 0 <= j < e0.len() && e0[j].0 == cv.name {
                            let j = choose|j: int| 0 <= j < e0.len() && e0[j].0 == cv.name;
                            assert(cn[j] == cv.name);
                        }
                    }
                    assert(self.class_views() =~= v0.push(cv));
                    assert(class_names(self.class_views()) =~= cn.push(cv.name));
                }
            },
        }
    }

    /// Adds `e` under its name, replacing an enum of the same name where there is one.
    pub fn insert_enum(&mut self, e: EnumDef)
        requires
            old(self).wf(),
        ensures
            final(self).wf(),
            final(self).enum_views() == insert_enum_spec(old(self).enum_views(), e@),
            final(self).classes == old(self).classes,
            final(self).verbose == old(self).verbose,
    {
        let ghost ev = e@;
        let ghost e0 = enum_entries(self.enums);
        let ghost v0 = self.enum_views();
        let ghost en = enum_names(v0);
        let found = self.enum_index(e.name.as_str());
        let key = e.name.clone();
        assert(key@ == ev.name);
        enum_map_insert(&mut self.enums, key, e);
        let ghost e1 = enum_entries(self.enums);
        match found {
            Some(i) => {
                proof {
                    lemma_first_name(en, ev.name, i as int);
                    assert(e0[i as int].0 == ev.name);
                    assert forall|j: int| 0 <= j < e0.len() && j != i implies e0[j].0 != ev.name by {
                        assert(e0[j].0 == e0[j].1.name);
                        assert(en[j] == e0[j].0);
                    }
                    lemma_upsert_at(e0, ev.name, ev, i as int);
                    assert(self.enum_views() =~= v0.update(i as int, ev));
                    assert(enum_names(self.enum_views()) =~= en.update(i as int, ev.name));
                }
            },
            None => {
                proof {
                    assert(forall|j: int| 0 <= j < en.len() ==> en[j] != ev.name) by {
                        if exists|j: int| 0 <= j < en.len() && en[j] == ev.name {
                            let j = choose|j: int| 0 <= j < en.len() && en[j] == ev.name;
                            assert(first_name_at(en, ev.name, j) || exists|k: int| 0 <= k < j && en[k] == ev.name);
                        }
                    }
                    assert(!exists|j: int| 0 <= j < e0.len() && e0[j].0 == ev.name) by {
                        if exists|j: int| 0 <= j < e0.len() && e0[j].0 == ev.name {
                            let j = choose|j: int| 0 <= j < e0.len() && e0[j].0 == ev.name;
                            assert(en[j] == ev.name);
                        }
                    }
                    assert(self.enum_views() =~= v0.push(ev));
                    assert(enum_names(self.enum_views()) =~= en.push(ev.name));
                }
            },
        }
    }

    /// Sets the subclasses of the class at position `i`.
    pub fn set_subclasses(&mut self, i: usize, subclasses: Vec<String>)
        requires
            old(self).wf(),
            i < old(self).class_views().len(),
        ensures
            final(self).wf(),
            final(self).class_views() == old(self).class_views().update(
                i as int,
                ClassView { subclasses: subclasses.deep_view(), ..old(self).class_views()[i as int] },
            ),
            final(self).enums == old(self).enums,
            final(self).verbose == old(self).verbose,
    {
        let ghost v0 = self.class_views();
        let ghost e0 = class_entries(self.classes);
        let placeholder = ClassDef {
            name: String::new(),
            doc: None,
            properties: Vec::new(),
            is_sealed: false,
            parent: None,
            subclasses: Vec::new(),
        };
        let mut c = class_map_swap(&mut self.classes, i, placeholder);
        c.subclasses = subclasses;
        let ghost cv = c@;
        let _ = class_map_swap(&mut self.classes, i, c);
        assert(class_entries(self.classes) =~= e0.update(i as int, (e0[i as int].0, cv)));
        assert(self.class_views() =~= v0.update(i as int, cv));
        assert(class_names(self.class_views()) =~= class_names(v0));
    }
}

} // verus!
