//! Scans declaration text into classes and enums.
use vstd::prelude::*;

use vstd::string::StringExecFns;

use crate::scan::{
    class_patterns_ok, enum_patterns_ok, pattern_compiles, property_patterns_ok, DOC_PATTERN,
    annotation_list, captures_all, contains_text, doc_spec, extract_doc_string, group,
    group_or_empty, group_text, group_text_or_empty, match_end, match_start, occurs_in,
    parse_annotations, regex_captures, span_hi, span_lo, spans_within, CLASS_PATTERN,
    ENTRY_PATTERN, ENUM_PATTERN, PROPERTY_PATTERN,
};
use crate::text::{
    chars_of, find_first, first_at, has_prefix, prefix_at, same_text, string_range,
    strip_trailing, trim, trim_range,
};
use crate::types::{
    insert_class_spec, insert_enum_spec, ClassDef, ClassView, EntryView, EnumDef, EnumEntry,
    EnumView, ParsingContext, Property, PropertyView,
};

verus! {

/// Why a piece of declaration text could not be read.
#[derive(Debug, PartialEq, Eq, Structural)]
pub enum ParseError {
    /// The text holds no opening brace.
    NoOpeningBrace,
    /// The braces after the opening one never balance.
    UnmatchedBraces,
    /// A scanning pattern was refused by the pattern engine.
    BadPattern,
}

/// Opening minus closing braces in `s[i..j]`.
pub open spec fn brace_depth(s: Seq<char>, i: int, j: int) -> int
    decreases j - i,
{
    if j <= i {
        0
    } else {
        brace_depth(s, i, j - 1) + if s[j - 1] == '{' {
            1int
        } else if s[j - 1] == '}' {
            -1int
        } else {
            0int
        }
    }
}

/// `k` closes the brace at `open`: the first position after it where the braces balance.
pub open spec fn closes_at(s: Seq<char>, open: int, k: int) -> bool {
    open < k < s.len() && brace_depth(s, open, k + 1) == 0 && forall|m: int|
        open < m <= k ==> #[trigger] brace_depth(s, open, m) > 0
}

/// What lies between the first `{` of `s` and the brace that closes it.
pub open spec fn class_body_spec(s: Seq<char>) -> Result<Seq<char>, ParseError> {
    if exists|o: int| first_at(s, '{', o) {
        let o = choose|o: int| first_at(s, '{', o);
        if exists|k: int| closes_at(s, o, k) {
            let k = choose|k: int| closes_at(s, o, k);
            Ok(s.subrange(o + 1, k))
        } else {
            Err(ParseError::UnmatchedBraces)
        }
    } else {
        Err(ParseError::NoOpeningBrace)
    }
}

/// Bounds in `cs` of the body that follows the first `{` at or after `lo`.
pub(crate) fn body_range(cs: &Vec<char>, lo: usize) -> (r: Result<(usize, usize), ParseError>)
    requires
        lo <= cs@.len(),
    ensures
        match (r, class_body_spec(cs@.subrange(lo as int, cs@.len() as int))) {
            (Ok((a, b)), Ok(body)) => lo < a <= b <= cs@.len() && cs@.subrange(a as int, b as int) == body,
            (Err(e), Err(f)) => e == f,
            _ => false,
        },
{
    let n = cs.len();
    let ghost s = cs@.subrange(lo as int, n as int);
    let open = match find_first(cs, lo, n, '{') {
        Some(o) => o,
        None => {
            assert(!exists|o: int| first_at(s, '{', o));
            return Err(ParseError::NoOpeningBrace);
        },
    };
    let ghost o = open - lo;
    assert(forall|k: int| first_at(s, '{', k) ==> k == o);
    let mut depth: usize = 1;
    let mut i: usize = open + 1;
    assert(brace_depth(s, o, o + 1) == 1) by {
        assert(brace_depth(s, o, o) == 0);
    }
    while i < n
        invariant
            lo <= open < i <= n == cs@.len(),
            s == cs@.subrange(lo as int, n as int),
            o == open - lo,
            first_at(s, '{', o),
            depth == brace_depth(s, o, i - lo),
            0 < depth <= i - open,
            forall|m: int| o < m <= i - lo ==> #[trigger] brace_depth(s, o, m) > 0,
        decreases n - i,
    {
        let c = cs[i];
        assert(s[i - lo] == c);
        assert(brace_depth(s, o, i - lo + 1) == brace_depth(s, o, i - lo) + if c == '{' {
            1int
        } else if c == '}' {
            -1int
        } else {
            0int
        });
        if c == '{' {
            depth = depth + 1;
        } else if c == '}' {
            depth = depth - 1;
            if depth == 0 {
                assert(closes_at(s, o, i - lo));
                assert forall|k: int| closes_at(s, o, k) implies k == i - lo by {
                    if k < i - lo {
                        assert(brace_depth(s, o, k + 1) > 0);
                    } else if k > i - lo {
                        assert(brace_depth(s, o, i - lo + 1) > 0);
                    }
                }
                assert(cs@.subrange(open + 1, i as int) =~= s.subrange(o + 1, i - lo));
                assert(first_at(s, '{', o));
                assert(class_body_spec(s) == Ok::<Seq<char>, ParseError>(s.subrange(o + 1, i - lo)));
                return Ok((open + 1, i));
            }
        }
        i = i + 1;
    }
    assert(!exists|k: int| closes_at(s, o, k));
    Err(ParseError::UnmatchedBraces)
}

/// The text between the first `{` of `text` and the brace that closes it,
/// counting nested braces.
pub fn extract_class_body(text: &str) -> (r: Result<String, ParseError>)
    ensures
        match (r, class_body_spec(text@)) {
            (Ok(body), Ok(spec_body)) => body@ == spec_body,
            (Err(e), Err(f)) => e == f,
            _ => false,
        },
{
    let cs = chars_of(text);
    assert(cs@.subrange(0, cs@.len() as int) =~= text@);
    match body_range(&cs, 0) {
        Ok((a, b)) => Ok(string_range(&cs, a, b)),
        Err(e) => Err(e),
    }
}

/// The value type of a `Map<K, V>` type string: what follows its first comma, trimmed.
pub open spec fn map_value_spec(u: Seq<char>) -> Option<Seq<char>> {
    if has_prefix(u, "Map<"@) && u.len() > 4 && u.last() == '>' && exists|i: int|
        #[trigger] first_at(u.subrange(4, u.len() - 1), ',', i) {
        let inner = u.subrange(4, u.len() - 1);
        let i = choose|i: int| first_at(inner, ',', i);
        Some(trim(inner.subrange(i + 1, inner.len() as int)))
    } else {
        None
    }
}

/// Element type, nullability, list shape and map shape read from a type string.
pub open spec fn type_info_spec(s: Seq<char>) -> (Seq<char>, bool, bool, bool) {
    let t = trim(s);
    let nullable = t.len() > 0 && t.last() == '?';
    let u = strip_trailing(t, '?');
    if has_prefix(u, "List<"@) && u.len() > 5 && u.last() == '>' {
        (u.subrange(5, u.len() - 1), nullable, true, false)
    } else if map_value_spec(u) is Some {
        (map_value_spec(u)->0, nullable, false, true)
    } else {
        (u, nullable, false, false)
    }
}

/// End of `cs[a..b0]` once every trailing `?` is dropped.
fn strip_marks(cs: &Vec<char>, a: usize, b0: usize) -> (b: usize)
    requires
        a <= b0 <= cs@.len(),
    ensures
        a <= b <= b0,
        cs@.subrange(a as int, b as int) == strip_trailing(cs@.subrange(a as int, b0 as int), '?'),
{
    let mut b: usize = b0;
    while b > a && cs[b - 1] == '?'
        invariant
            a <= b <= b0 <= cs@.len(),
            strip_trailing(cs@.subrange(a as int, b0 as int), '?') == strip_trailing(
                cs@.subrange(a as int, b as int),
                '?',
            ),
        decreases b,
    {
        assert(cs@.subrange(a as int, b as int).drop_last() =~= cs@.subrange(a as int, b - 1));
        b = b - 1;
    }
    b
}

/// Bounds of the value type when `cs[a..b]` is a map type string.
fn map_value_range(cs: &Vec<char>, a: usize, b: usize) -> (r: Option<(usize, usize)>)
    requires
        a <= b <= cs@.len(),
    ensures
        match (r, map_value_spec(cs@.subrange(a as int, b as int))) {
            (Some((x, y)), Some(v)) => x <= y <= cs@.len() && cs@.subrange(x as int, y as int) == v,
            (None, None) => true,
            _ => false,
        },
{
    let ghost u = cs@.subrange(a as int, b as int);
    if b - a > 4 && prefix_at(cs, a, b, "Map<") && cs[b - 1] == '>' {
        let ghost inner = u.subrange(4, u.len() - 1);
        assert(cs@.subrange(a + 4, b - 1) =~= inner);
        match find_first(cs, a + 4, b - 1, ',') {
            Some(c) => {
                assert(first_at(inner, ',', c - (a + 4)));
                assert(forall|k: int| first_at(inner, ',', k) ==> k == c - (a + 4));
                let (x, y) = trim_range(cs, c + 1, b - 1);
                assert(cs@.subrange(c + 1, b - 1) =~= inner.subrange(c - (a + 4) + 1, inner.len() as int));
                Some((x, y))
            },
            None => {
                assert(!exists|k: int| first_at(inner, ',', k));
                None
            },
        }
    } else {
        None
    }
}

/// Splits a declared type into its element type and shape: a trailing `?`
/// makes it nullable, `List<T>` a list of `T`, `Map<K, V>` a map onto `V`.
pub fn parse_type_info(type_str: &str) -> (r: (String, bool, bool, bool))
    ensures
        (r.0@, r.1, r.2, r.3) == type_info_spec(type_str@),
{
    let cs = chars_of(type_str);
    let n = cs.len();
    assert(cs@.subrange(0, n as int) =~= type_str@);
    let (a, b0) = trim_range(&cs, 0, n);
    let nullable = b0 > a && cs[b0 - 1] == '?';
    let b = strip_marks(&cs, a, b0);
    let ghost u = cs@.subrange(a as int, b as int);
    if b - a > 5 && prefix_at(&cs, a, b, "List<") && cs[b - 1] == '>' {
        assert(cs@.subrange(a + 5, b - 1) =~= u.subrange(5, u.len() - 1));
        return (string_range(&cs, a + 5, b - 1), nullable, true, false);
    }
    match map_value_range(&cs, a, b) {
        Some((x, y)) => (string_range(&cs, x, y), nullable, false, true),
        None => (string_range(&cs, a, b), nullable, false, false),
    }
}

/// The spans of one match lie inside a text of `len` characters.
pub open spec fn match_within(m: Seq<Option<(usize, usize)>>, len: nat) -> bool {
    forall|k: int| 0 <= k < m.len() && (#[trigger] m[k]) is Some ==> span_lo(m[k]->0) <= span_hi(m[k]->0) <= len
}

proof fn lemma_match_within(caps: Seq<Seq<Option<(usize, usize)>>>, len: nat, i: int)
    requires
        spans_within(caps, len),
        0 <= i < caps.len(),
    ensures
        match_within(caps[i], len),
{
    assert forall|k: int| 0 <= k < caps[i].len() && (#[trigger] caps[i][k]) is Some implies span_lo(caps[i][k]->0) <= span_hi(caps[i][k]->0) <= len by {
        assert(caps[i][k] is Some);
    }
}

/// Group `g` of `m`, trimmed.
pub open spec fn trimmed_group(text: Seq<char>, m: Seq<Option<(usize, usize)>>, g: int) -> Option<Seq<char>> {
    match group(text, m, g) {
        Some(t) => Some(trim(t)),
        None => None,
    }
}

/// The documentation held by group `g` of `m`, if the group took part.
pub open spec fn doc_of_group(text: Seq<char>, m: Seq<Option<(usize, usize)>>, g: int) -> Option<Seq<char>> {
    match group(text, m, g) {
        Some(t) => Some(doc_spec(t)),
        None => None,
    }
}

/// The type a property declares: the delegate's type argument, else the
/// explicit type, else `String`.
pub open spec fn declared_type(body: Seq<char>, m: Seq<Option<(usize, usize)>>) -> Seq<char> {
    match trimmed_group(body, m, 5) {
        Some(t) => t,
        None => match trimmed_group(body, m, 3) {
            Some(t) => t,
            None => "String"@,
        },
    }
}

/// The documentation of the first documentation tag among `anns`.
pub open spec fn first_doc(anns: Seq<Seq<char>>) -> Option<Seq<char>>
    decreases anns.len(),
{
    if anns.len() == 0 {
        None
    } else if has_prefix(anns[0], "SchemaDoc("@) {
        Some(doc_spec(anns[0]))
    } else {
        first_doc(anns.subrange(1, anns.len() as int))
    }
}

/// The property that one property match in `body` declares.
pub open spec fn property_of(body: Seq<char>, m: Seq<Option<(usize, usize)>>) -> PropertyView {
    let anns = annotation_list(group_or_empty(body, m, 1));
    let info = type_info_spec(declared_type(body, m));
    PropertyView {
        name: group_or_empty(body, m, 2),
        elem_type: info.0,
        doc: first_doc(anns),
        is_nullable: info.1 || group_or_empty(body, m, 4) == "nullableValue"@,
        is_list: info.2,
        is_map: info.3,
        default_value: None,
        annotations: anns,
    }
}

/// The properties declared in a class body, in order.
pub open spec fn properties_spec(body: Seq<char>) -> Seq<PropertyView> {
    regex_captures(PROPERTY_PATTERN@, body).map_values(
        |m: Seq<Option<(usize, usize)>>| property_of(body, m),
    )
}

/// Group `g` of `m`, trimmed, read from `cs`.
fn trimmed_group_text(cs: &Vec<char>, m: &Vec<Option<(usize, usize)>>, g: usize) -> (r: Option<String>)
    requires
        match_within(m@, cs@.len()),
    ensures
        r.deep_view() == trimmed_group(cs@, m@, g as int),
{
    if g < m.len() {
        match m[g] {
            Some((a, b)) => {
                assert(m@[g as int] is Some);
                let (x, y) = trim_range(cs, a, b);
                Some(string_range(cs, x, y))
            },
            None => None,
        }
    } else {
        None
    }
}

/// The documentation of the first documentation tag among `anns`.
fn doc_of_tags(anns: &Vec<String>) -> (r: Result<Option<String>, ParseError>)
    ensures
        match r {
            Ok(d) => d.deep_view() == first_doc(anns.deep_view()),
            Err(e) => e == ParseError::BadPattern && !(pattern_compiles(DOC_PATTERN@)),
        },
{
    let ghost all = anns.deep_view();
    let mut i: usize = 0;
    assert(all.subrange(0, all.len() as int) =~= all);
    while i < anns.len()
        invariant
            i <= anns@.len(),
            all == anns.deep_view(),
            first_doc(all) == first_doc(all.subrange(i as int, all.len() as int)),
        decreases anns@.len() - i,
    {
        let cs = chars_of(anns[i].as_str());
        assert(cs@.subrange(0, cs@.len() as int) =~= cs@);
        assert(all.subrange(i as int, all.len() as int)[0] == cs@);
        if prefix_at(&cs, 0, cs.len(), "SchemaDoc(") {
            return match extract_doc_string(anns[i].as_str()) {
                Ok(d) => Ok(Some(d)),
                Err(e) => Err(e),
            };
        }
        assert(all.subrange(i as int, all.len() as int).subrange(1, all.len() - i) =~= all.subrange(i + 1, all.len() as int));
        i = i + 1;
    }
    Ok(None)
}

/// The property declared by one property match.
fn property_from_match(cs: &Vec<char>, m: &Vec<Option<(usize, usize)>>) -> (r: Result<Property, ParseError>)
    requires
        match_within(m@, cs@.len()),
    ensures
        match r {
            Ok(p) => p@ == property_of(cs@, m@),
            Err(e) => e == ParseError::BadPattern && !(property_patterns_ok()),
        },
{
    let ann_text = group_text_or_empty(cs, m, 1);
    let name = group_text_or_empty(cs, m, 2);
    let delegate = group_text_or_empty(cs, m, 4);
    let type_str = match trimmed_group_text(cs, m, 5) {
        Some(t) => t,
        None => match trimmed_group_text(cs, m, 3) {
            Some(t) => t,
            None => String::from_str("String"),
        },
    };
    assert(type_str@ == declared_type(cs@, m@));
    let annotations = parse_annotations(ann_text.as_str())?;
    let doc = doc_of_tags(&annotations)?;
    let (elem_type, nullable, is_list, is_map) = parse_type_info(type_str.as_str());
    let is_nullable = nullable || same_text(delegate.as_str(), "nullableValue");
    Ok(Property {
        name,
        elem_type,
        doc,
        is_nullable,
        is_list,
        is_map,
        default_value: None,
        annotations,
    })
}

/// The properties declared in a class body, in order.
pub fn parse_properties(body: &str) -> (r: Result<Vec<Property>, ParseError>)
    ensures
        match r {
            Ok(v) => v@.map_values(|p: Property| p@) == properties_spec(body@),
            Err(e) => e == ParseError::BadPattern && !(property_patterns_ok()),
        },
{
    let caps = match captures_all(PROPERTY_PATTERN, body) {
        Some(c) => c,
        None => return Err(ParseError::BadPattern),
    };
    let cs = chars_of(body);
    let ghost all = regex_captures(PROPERTY_PATTERN@, body@);
    let mut out: Vec<Property> = Vec::new();
    let mut i: usize = 0;
    while i < caps.len()
        invariant
            i <= caps@.len() == all.len(),
            cs@ == body@,
            caps@.map_values(|m: Vec<Option<(usize, usize)>>| m@) == all,
            spans_within(all, cs@.len()),
            out@.map_values(|p: Property| p@) == all.subrange(0, i as int).map_values(
                |m: Seq<Option<(usize, usize)>>| property_of(body@, m),
            ),
        decreases caps@.len() - i,
    {
        assert(caps@[i as int]@ == all[i as int]);
        proof {
            lemma_match_within(all, cs@.len(), i as int);
        }
        let p = property_from_match(&cs, &caps[i])?;
        assert(p@ == property_of(body@, all[i as int]));
        let ghost prev = out@;
        assert(prev.map_values(|p: Property| p@).len() == i);
        out.push(p);
        assert(out@ == prev.push(p));
        let ghost lhs = out@.map_values(|p: Property| p@);
        let ghost rhs = all.subrange(0, i + 1).map_values(
            |m: Seq<Option<(usize, usize)>>| property_of(body@, m),
        );
        let ghost before = all.subrange(0, i as int).map_values(
            |m: Seq<Option<(usize, usize)>>| property_of(body@, m),
        );
        assert forall|k: int| 0 <= k < i implies lhs[k] == rhs[k] by {
            assert(lhs[k] == prev[k]@);
            assert(prev.map_values(|p: Property| p@)[k] == before[k]);
            assert(rhs[k] == property_of(body@, all[k]));
        }
        assert(lhs =~= rhs);
        i = i + 1;
    }
    assert(all.subrange(0, i as int) =~= all);
    Ok(out)
}

/// Where the argument list that goes on at `from` closes: the first `)` at
/// or after `from`, or the end of the body.
pub open spec fn args_end(body: Seq<char>, from: int) -> int {
    let rest = body.subrange(from, body.len() as int);
    if exists|i: int| first_at(rest, ')', i) {
        from + choose|i: int| first_at(rest, ')', i)
    } else {
        body.len() as int
    }
}

/// The entry that one entry match in an enum body declares. An entry is
/// outdated when the rest of its own argument list says `outdated = true`.
pub open spec fn entry_of(body: Seq<char>, m: Seq<Option<(usize, usize)>>) -> EntryView {
    EntryView {
        name: group_or_empty(body, m, 2),
        schema_value: group_or_empty(body, m, 3),
        doc: doc_of_group(body, m, 1),
        is_outdated: contains_text(
            body.subrange(match_end(m), args_end(body, match_end(m))),
            "outdated = true"@,
        ),
    }
}

/// The entries of an enum body, in order.
pub open spec fn entries_spec(body: Seq<char>) -> Seq<EntryView> {
    regex_captures(ENTRY_PATTERN@, body).map_values(
        |m: Seq<Option<(usize, usize)>>| entry_of(body, m),
    )
}

/// The enum that one enum match in `content` declares.
pub open spec fn enum_of(content: Seq<char>, m: Seq<Option<(usize, usize)>>) -> EnumView {
    EnumView {
        name: group_or_empty(content, m, 3),
        doc: doc_of_group(content, m, 1),
        entries: entries_spec(group_or_empty(content, m, 4)),
        is_order_sensitive: group(content, m, 2) is Some,
    }
}

/// `s` after inserting, in order, the enum of each match.
pub open spec fn insert_enums(
    s: Seq<EnumView>,
    content: Seq<char>,
    caps: Seq<Seq<Option<(usize, usize)>>>,
) -> Seq<EnumView>
    decreases caps.len(),
{
    if caps.len() == 0 {
        s
    } else {
        insert_enum_spec(insert_enums(s, content, caps.drop_last()), enum_of(content, caps.last()))
    }
}

/// The documentation held by group `g` of `m`.
fn doc_from_group(cs: &Vec<char>, m: &Vec<Option<(usize, usize)>>, g: usize) -> (r: Result<Option<String>, ParseError>)
    requires
        match_within(m@, cs@.len()),
    ensures
        match r {
            Ok(d) => d.deep_view() == doc_of_group(cs@, m@, g as int),
            Err(e) => e == ParseError::BadPattern && !(pattern_compiles(DOC_PATTERN@)),
        },
{
    match group_text(cs, m, g) {
        Some(t) => {
            let d = extract_doc_string(t.as_str())?;
            Ok(Some(d))
        },
        None => Ok(None),
    }
}

/// The entry declared by one entry match in an enum body.
fn entry_from_match(bcs: &Vec<char>, m: &Vec<Option<(usize, usize)>>) -> (r: Result<EnumEntry, ParseError>)
    requires
        match_within(m@, bcs@.len()),
    ensures
        match r {
            Ok(e) => e@ == entry_of(bcs@, m@),
            Err(e) => e == ParseError::BadPattern && !(pattern_compiles(DOC_PATTERN@)),
        },
{
    let doc = doc_from_group(bcs, m, 1)?;
    let name = group_text_or_empty(bcs, m, 2);
    let schema_value = group_text_or_empty(bcs, m, 3);
    let end: usize = if m.len() > 0 {
        match m[0] {
            Some((_, b)) => {
                assert(m@[0] is Some);
                b
            },
            None => 0,
        }
    } else {
        0
    };
    let n = bcs.len();
    let ghost rest = bcs@.subrange(end as int, n as int);
    let close = match find_first(bcs, end, n, ')') {
        Some(c) => {
            assert(first_at(rest, ')', c - end));
            assert(forall|k: int| first_at(rest, ')', k) ==> k == c - end);
            c
        },
        None => {
            assert(!exists|k: int| first_at(rest, ')', k));
            n
        },
    };
    let is_outdated = occurs_in(bcs, end, close, "outdated = true");
    Ok(EnumEntry { name, schema_value, doc, is_outdated })
}

/// The entries of an enum body, in order.
fn parse_entries(body: &str) -> (r: Result<Vec<EnumEntry>, ParseError>)
    ensures
        match r {
            Ok(v) => v@.map_values(|e: EnumEntry| e@) == entries_spec(body@),
            Err(e) => e == ParseError::BadPattern && !(pattern_compiles(ENTRY_PATTERN@) && pattern_compiles(DOC_PATTERN@)),
        },
{
    let caps = match captures_all(ENTRY_PATTERN, body) {
        Some(c) => c,
        None => return Err(ParseError::BadPattern),
    };
    let cs = chars_of(body);
    let ghost all = regex_captures(ENTRY_PATTERN@, body@);
    let mut out: Vec<EnumEntry> = Vec::new();
    let mut i: usize = 0;
    while i < caps.len()
        invariant
            i <= caps@.len() == all.len(),
            cs@ == body@,
            caps@.map_values(|m: Vec<Option<(usize, usize)>>| m@) == all,
            spans_within(all, cs@.len()),
            out@.map_values(|e: EnumEntry| e@) == all.subrange(0, i as int).map_values(
                |m: Seq<Option<(usize, usize)>>| entry_of(body@, m),
            ),
        decreases caps@.len() - i,
    {
        assert(caps@[i as int]@ == all[i as int]);
        proof {
            lemma_match_within(all, cs@.len(), i as int);
        }
        let e = entry_from_match(&cs, &caps[i])?;
        let ghost prev = out@;
        assert(prev.map_values(|e: EnumEntry| e@).len() == i);
        out.push(e);
        let ghost lhs = out@.map_values(|e: EnumEntry| e@);
        let ghost rhs = all.subrange(0, i + 1).map_values(
            |m: Seq<Option<(usize, usize)>>| entry_of(body@, m),
        );
        let ghost before = all.subrange(0, i as int).map_values(
            |m: Seq<Option<(usize, usize)>>| entry_of(body@, m),
        );
        assert forall|k: int| 0 <= k < i implies lhs[k] == rhs[k] by {
            assert(lhs[k] == prev[k]@);
            assert(prev.map_values(|e: EnumEntry| e@)[k] == before[k]);
        }
        assert(lhs =~= rhs);
        i = i + 1;
    }
    assert(all.subrange(0, i as int) =~= all);
    Ok(out)
}

/// The enum declared by one enum match.
fn enum_from_match(cs: &Vec<char>, m: &Vec<Option<(usize, usize)>>) -> (r: Result<EnumDef, ParseError>)
    requires
        match_within(m@, cs@.len()),
    ensures
        match r {
            Ok(e) => e@ == enum_of(cs@, m@),
            Err(e) => e == ParseError::BadPattern && !(enum_patterns_ok()),
        },
{
    let doc = doc_from_group(cs, m, 1)?;
    let is_order_sensitive = group_text(cs, m, 2).is_some();
    let name = group_text_or_empty(cs, m, 3);
    let body = group_text_or_empty(cs, m, 4);
    let entries = parse_entries(body.as_str())?;
    Ok(EnumDef { name, doc, entries, is_order_sensitive })
}

/// Adds every enum declared in `content` to the context, a later one
/// replacing an earlier one of the same name.
pub fn parse_enums(content: &str, context: &mut ParsingContext) -> (r: Result<(), ParseError>)
    requires
        old(context).wf(),
    ensures
        final(context).wf(),
        final(context).classes == old(context).classes,
        match r {
            Ok(()) => final(context).enum_views() == insert_enums(
                old(context).enum_views(),
                content@,
                regex_captures(ENUM_PATTERN@, content@),
            ),
            Err(e) => e == ParseError::BadPattern && !(enum_patterns_ok()) && final(context).enums
                == old(context).enums,
        },
{
    let caps = match captures_all(ENUM_PATTERN, content) {
        Some(c) => c,
        None => return Err(ParseError::BadPattern),
    };
    let cs = chars_of(content);
    let ghost all = regex_captures(ENUM_PATTERN@, content@);
    let ghost start = context.enum_views();
    let n = caps.len();
    let mut found: Vec<EnumDef> = Vec::new();
    let mut i: usize = 0;
    while i < n
        invariant
            i <= n == caps@.len() == all.len(),
            cs@ == content@,
            caps@.map_values(|m: Vec<Option<(usize, usize)>>| m@) == all,
            spans_within(all, cs@.len()),
            found@.len() == i,
            forall|k: int| 0 <= k < i ==> #[trigger] found@[k]@ == enum_of(content@, all[k]),
            context.wf(),
            context.classes == old(context).classes,
            context.enums == old(context).enums,
            start == old(context).enum_views(),
        decreases n - i,
    {
        assert(caps@[i as int]@ == all[i as int]);
        proof {
            lemma_match_within(all, cs@.len(), i as int);
        }
        let e = enum_from_match(&cs, &caps[i])?;
        found.push(e);
        i = i + 1;
    }
    let mut taken: Vec<EnumDef> = Vec::new();
    while found.len() > 0
        invariant
            n == found@.len() + taken@.len(),
            n == all.len(),
            context.wf(),
            context.classes == old(context).classes,
            context.enums == old(context).enums,
            start == old(context).enum_views(),
            forall|k: int| 0 <= k < found@.len() ==> #[trigger] found@[k]@ == enum_of(content@, all[k]),
            forall|k: int| 0 <= k < taken@.len() ==> #[trigger] taken@[k]@ == enum_of(content@, all[n - 1 - k]),
        decreases found@.len(),
    {
        let e = found.pop().unwrap();
        taken.push(e);
    }
    let mut j: usize = 0;
    assert(all.subrange(0, 0) =~= Seq::<Seq<Option<(usize, usize)>>>::empty());
    while taken.len() > 0
        invariant
            n == j + taken@.len(),
            n == all.len(),
            forall|k: int| 0 <= k < taken@.len() ==> #[trigger] taken@[k]@ == enum_of(content@, all[n - 1 - k]),
            context.wf(),
            context.classes == old(context).classes,
            start == old(context).enum_views(),
            context.enum_views() == insert_enums(start, content@, all.subrange(0, j as int)),
        decreases taken@.len(),
    {
        let e = taken.pop().unwrap();
        assert(e@ == enum_of(content@, all[j as int]));
        context.insert_enum(e);
        assert(all.subrange(0, j + 1).drop_last() =~= all.subrange(0, j as int));
        j = j + 1;
    }
    assert(all.subrange(0, j as int) =~= all);
    Ok(())
}

/// Whether `s` ends with `p`.
pub open spec fn has_suffix(s: Seq<char>, p: Seq<char>) -> bool {
    p.len() <= s.len() && s.subrange(s.len() - p.len(), s.len() as int) == p
}

/// The supertypes that mark a declaration as a schema class: a fixed set of
/// base markers, or any name ending in `Settings`.
pub open spec fn admitted_parent(p: Seq<char>) -> bool {
    p == "SchemaNode"@ || p == "Base"@ || p == "Dependency"@ || p == "ScopedDependency"@ || p
        == "UnscopedDependency"@ || p == "BomDependency"@ || p == "UnscopedBomDependency"@ || p
        == "Settings"@ || has_suffix(p, "Settings"@)
}

/// Whether a declaration with supertype `parent` is a schema class.
pub fn is_admitted_parent(parent: &str) -> (r: bool)
    ensures
        r == admitted_parent(parent@),
{
    if same_text(parent, "SchemaNode") || same_text(parent, "Base") || same_text(parent, "Dependency")
        || same_text(parent, "ScopedDependency") || same_text(parent, "UnscopedDependency")
        || same_text(parent, "BomDependency") || same_text(parent, "UnscopedBomDependency")
        || same_text(parent, "Settings") {
        return true;
    }
    let cs = chars_of(parent);
    crate::scan::ends_with_text(&cs, "Settings")
}

/// The class that one class-header match in `content` declares: `None` when
/// the match has no name or supertype or the supertype is not admitted; an
/// error when its body's braces do not balance.
pub open spec fn class_of(content: Seq<char>, m: Seq<Option<(usize, usize)>>) -> Option<Result<ClassView, ParseError>> {
    let name = group_or_empty(content, m, 3);
    let parent = group_or_empty(content, m, 4);
    let ann = group_or_empty(content, m, 1);
    if name.len() == 0 || parent.len() == 0 || !admitted_parent(parent) {
        None
    } else {
        match class_body_spec(content.subrange(match_start(m), content.len() as int)) {
            Err(e) => Some(Err(e)),
            Ok(body) => Some(
                Ok(
                    ClassView {
                        name,
                        doc: if contains_text(ann, "@SchemaDoc"@) {
                            Some(doc_spec(ann))
                        } else {
                            None
                        },
                        properties: properties_spec(body),
                        is_sealed: match group(content, m, 2) {
                            Some(t) => contains_text(t, "sealed"@),
                            None => false,
                        },
                        parent: if parent == "SchemaNode"@ {
                            None
                        } else {
                            Some(parent)
                        },
                        subclasses: Seq::empty(),
                    },
                ),
            ),
        }
    }
}

/// The classes of the matches, in order, or the first error among them.
pub open spec fn classes_scan(content: Seq<char>, caps: Seq<Seq<Option<(usize, usize)>>>) -> Result<Seq<ClassView>, ParseError>
    decreases caps.len(),
{
    if caps.len() == 0 {
        Ok(Seq::empty())
    } else {
        match classes_scan(content, caps.drop_last()) {
            Err(e) => Err(e),
            Ok(v) => match class_of(content, caps.last()) {
                None => Ok(v),
                Some(Ok(c)) => Ok(v.push(c)),
                Some(Err(e)) => Err(e),
            },
        }
    }
}

/// `s` after inserting each of `cs` in order.
pub open spec fn insert_classes(s: Seq<ClassView>, cs: Seq<ClassView>) -> Seq<ClassView>
    decreases cs.len(),
{
    if cs.len() == 0 {
        s
    } else {
        insert_class_spec(insert_classes(s, cs.drop_last()), cs.last())
    }
}

proof fn lemma_scan_err_sticks(content: Seq<char>, caps: Seq<Seq<Option<(usize, usize)>>>, j: int)
    requires
        0 <= j <= caps.len(),
        classes_scan(content, caps.subrange(0, j)) is Err,
    ensures
        classes_scan(content, caps) == classes_scan(content, caps.subrange(0, j)),
    decreases caps.len() - j,
{
    if j < caps.len() {
        let next = caps.subrange(0, j + 1);
        assert(next.drop_last() =~= caps.subrange(0, j));
        lemma_scan_err_sticks(content, caps, j + 1);
    } else {
        assert(caps.subrange(0, j) =~= caps);
    }
}

/// The class declared by one class-header match.
fn class_from_match(cs: &Vec<char>, m: &Vec<Option<(usize, usize)>>) -> (r: Option<Result<ClassDef, ParseError>>)
    requires
        match_within(m@, cs@.len()),
    ensures
        match (r, class_of(cs@, m@)) {
            (None, None) => true,
            (Some(Ok(c)), Some(Ok(v))) => c@ == v,
            (Some(Err(e)), Some(Err(f))) => e == f,
            (Some(Err(e)), Some(Ok(_))) => e == ParseError::BadPattern && !property_patterns_ok(),
            _ => false,
        },
{
    let name = group_text_or_empty(cs, m, 3);
    let parent = group_text_or_empty(cs, m, 4);
    if name.unicode_len() == 0 || parent.unicode_len() == 0 || !is_admitted_parent(parent.as_str()) {
        return None;
    }
    let start: usize = if m.len() > 0 {
        match m[0] {
            Some((a, _)) => {
                assert(m@[0] is Some);
                a
            },
            None => 0,
        }
    } else {
        0
    };
    let (a, b) = match body_range(cs, start) {
        Ok(range) => range,
        Err(e) => return Some(Err(e)),
    };
    let body = string_range(cs, a, b);
    let properties = match parse_properties(body.as_str()) {
        Ok(p) => p,
        Err(e) => return Some(Err(e)),
    };
    let ann = group_text_or_empty(cs, m, 1);
    let acs = chars_of(ann.as_str());
    assert(acs@.subrange(0, acs@.len() as int) =~= acs@);
    let doc = if occurs_in(&acs, 0, acs.len(), "@SchemaDoc") {
        match extract_doc_string(ann.as_str()) {
            Ok(d) => Some(d),
            Err(e) => return Some(Err(e)),
        }
    } else {
        None
    };
    let is_sealed = match group_text(cs, m, 2) {
        Some(t) => {
            let tcs = chars_of(t.as_str());
            assert(tcs@.subrange(0, tcs@.len() as int) =~= tcs@);
            occurs_in(&tcs, 0, tcs.len(), "sealed")
        },
        None => false,
    };
    let parent = if same_text(parent.as_str(), "SchemaNode") {
        None
    } else {
        Some(parent)
    };
    let c = ClassDef { name, doc, properties, is_sealed, parent, subclasses: Vec::new() };
    assert(c@.subclasses =~= Seq::<Seq<char>>::empty());
    Some(Ok(c))
}

/// The admitted classes declared in `content`, in order.
fn scan_classes(content: &str) -> (r: Result<Vec<ClassDef>, ParseError>)
    ensures
        r matches Ok(v) ==> classes_scan(content@, regex_captures(CLASS_PATTERN@, content@))
            == Ok::<Seq<ClassView>, ParseError>(v@.map_values(|c: ClassDef| c@)),
        r matches Err(e) ==> (e == ParseError::BadPattern && !class_patterns_ok()) || classes_scan(
            content@,
            regex_captures(CLASS_PATTERN@, content@),
        ) == Err::<Seq<ClassView>, ParseError>(e),
{
    let caps = match captures_all(CLASS_PATTERN, content) {
        Some(c) => c,
        None => return Err(ParseError::BadPattern),
    };
    let cs = chars_of(content);
    let ghost all = regex_captures(CLASS_PATTERN@, content@);
    let mut out: Vec<ClassDef> = Vec::new();
    let mut i: usize = 0;
    assert(all.subrange(0, 0) =~= Seq::<Seq<Option<(usize, usize)>>>::empty());
    assert(out@.map_values(|c: ClassDef| c@) =~= Seq::<ClassView>::empty());
    while i < caps.len()
        invariant
            i <= caps@.len() == all.len(),
            cs@ == content@,
            caps@.map_values(|m: Vec<Option<(usize, usize)>>| m@) == all,
            all == regex_captures(CLASS_PATTERN@, content@),
            spans_within(all, cs@.len()),
            classes_scan(content@, all.subrange(0, i as int)) == Ok::<Seq<ClassView>, ParseError>(
                out@.map_values(|c: ClassDef| c@),
            ),
        decreases caps@.len() - i,
    {
        assert(caps@[i as int]@ == all[i as int]);
        proof {
            lemma_match_within(all, cs@.len(), i as int);
        }
        assert(all.subrange(0, i + 1).drop_last() =~= all.subrange(0, i as int));
        assert(all.subrange(0, i + 1).last() == all[i as int]);
        match class_from_match(&cs, &caps[i]) {
            None => {},
            Some(Ok(c)) => {
                let ghost prev = out@;
                out.push(c);
                assert(out@.map_values(|c: ClassDef| c@) =~= prev.map_values(|c: ClassDef| c@).push(c@));
            },
            Some(Err(e)) => {
                proof {
                    if e != ParseError::BadPattern {
                        assert(class_of(content@, all[i as int]) == Some(Err::<ClassView, ParseError>(e)));
                        assert(classes_scan(content@, all.subrange(0, i + 1)) == Err::<Seq<ClassView>, ParseError>(e));
                        lemma_scan_err_sticks(content@, all, i + 1);
                    }
                }
                return Err(e);
            },
        }
        i = i + 1;
    }
    assert(all.subrange(0, i as int) =~= all);
    Ok(out)
}

/// Adds every admitted class declared in `content` to the context, a later
/// one replacing an earlier one of the same name. On an error the context is
/// left as it was.
pub fn parse_classes(content: &str, context: &mut ParsingContext) -> (r: Result<(), ParseError>)
    requires
        old(context).wf(),
    ensures
        final(context).wf(),
        final(context).enums == old(context).enums,
        match r {
            Ok(()) => classes_scan(content@, regex_captures(CLASS_PATTERN@, content@)) is Ok
                && final(context).class_views() == insert_classes(
                old(context).class_views(),
                classes_scan(content@, regex_captures(CLASS_PATTERN@, content@))->Ok_0,
            ),
            Err(e) => final(context).classes == old(context).classes && ((e == ParseError::BadPattern
                && !class_patterns_ok())
                || classes_scan(content@, regex_captures(CLASS_PATTERN@, content@)) == Err::<
                Seq<ClassView>,
                ParseError,
            >(e)),
        },
{
    let found = scan_classes(content)?;
    let ghost fv = found@.map_values(|c: ClassDef| c@);
    let ghost start = context.class_views();
    let mut found = found;
    let mut taken: Vec<ClassDef> = Vec::new();
    let total = found.len();
    assert(fv.len() == total);
    // Insert in declaration order: reverse once, then pop from the end.
    while found.len() > 0
        invariant
            fv.len() == found@.len() + taken@.len(),
            forall|k: int| 0 <= k < found@.len() ==> #[trigger] found@[k]@ == fv[k],
            forall|k: int| 0 <= k < taken@.len() ==> #[trigger] taken@[k]@ == fv[fv.len() - 1 - k],
        decreases found@.len(),
    {
        let c = found.pop().unwrap();
        taken.push(c);
    }
    let mut i: usize = 0;
    assert(fv.subrange(0, 0) =~= Seq::<ClassView>::empty());
    while taken.len() > 0
        invariant
            fv.len() == i + taken@.len(),
            fv.len() == taken@.len() + i <= usize::MAX,
            forall|k: int| 0 <= k < taken@.len() ==> #[trigger] taken@[k]@ == fv[fv.len() - 1 - k],
            context.wf(),
            context.enums == old(context).enums,
            start == old(context).class_views(),
            context.class_views() == insert_classes(start, fv.subrange(0, i as int)),
        decreases taken@.len(),
    {
        let c = taken.pop().unwrap();
        assert(c@ == fv[i as int]);
        context.insert_class(c);
        assert(fv.subrange(0, i + 1).drop_last() =~= fv.subrange(0, i as int));
        i = i + 1;
    }
    assert(fv.subrange(0, i as int) =~= fv);
    Ok(())
}

/// Adds the enums and then the classes declared in one file's text.
pub fn parse_declarations(content: &str, context: &mut ParsingContext) -> (r: Result<(), ParseError>)
    requires
        old(context).wf(),
    ensures
        final(context).wf(),
        r is Ok ==> final(context).enum_views() == insert_enums(
            old(context).enum_views(),
            content@,
            regex_captures(ENUM_PATTERN@, content@),
        ) && classes_scan(content@, regex_captures(CLASS_PATTERN@, content@)) is Ok
            && final(context).class_views() == insert_classes(
            old(context).class_views(),
            classes_scan(content@, regex_captures(CLASS_PATTERN@, content@))->Ok_0,
        ),
        classes_scan(content@, regex_captures(CLASS_PATTERN@, content@)) is Err ==> r is Err,
        enum_patterns_ok() && class_patterns_ok() ==> (r is Ok <==> classes_scan(
            content@,
            regex_captures(CLASS_PATTERN@, content@),
        ) is Ok),
        r matches Err(e) ==> (e == ParseError::BadPattern && !(enum_patterns_ok() && class_patterns_ok()))
            || classes_scan(content@, regex_captures(CLASS_PATTERN@, content@)) == Err::<
            Seq<ClassView>,
            ParseError,
        >(e),
{
    parse_enums(content, context)?;
    parse_classes(content, context)
}

} // verus!
