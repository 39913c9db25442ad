//! Pattern matching over declaration text, and the patterns the extractor uses.
use vstd::prelude::*;

use crate::text::{lemma_push_deep, prefix_at, string_range};

verus! {

/// An enum declaration: doc tag, order tag, name, body.
pub const ENUM_PATTERN: &'static str = r"(?s)(@SchemaDoc\([^\)]+\)\s*)?(@EnumOrderSensitive[^\n]*)?\s*enum\s+class\s+(\w+)\s*\([^)]*\)\s*:\s*SchemaEnum\s*\{([^}]+)\}";

/// An enum entry: doc tag, identifier, quoted schema value.
pub const ENTRY_PATTERN: &'static str = r#"(@SchemaDoc\([^\)]+\)\s*)?(\w+)\s*\(\s*"([^"]+)""#;

/// A class header: annotations, modifier, name, supertype, opening brace.
pub const CLASS_PATTERN: &'static str = r"(?m)((?:@\w+\([^\)]*\)\s*)*)?\s*(abstract\s+|sealed\s+)?class\s+(\w+)\s*(?:\(\))?\s*:\s*(\w+)\s*\(\)\s*\{";

/// A delegated property: annotations, name, explicit type, delegate, generic type.
pub const PROPERTY_PATTERN: &'static str = r"(?s)((?:@\w+(?:\([^\)]*\))?\s*)*)val\s+(\w+)(?:\s*:\s*(\w+(?:<[^>]*(?:<[^>]*>)?[^>]*>)?))?\s+by\s+(\w+)\s*(?:<([^>]*(?:<[^>]*>)?[^>]*)>)?\s*\(";

/// An annotation tag; the group holds it without its `@`.
pub const ANNOTATION_PATTERN: &'static str = r"@(\w+(?:\([^\)]*\))?)";

/// The quoted text of a documentation tag.
pub const DOC_PATTERN: &'static str = r#"SchemaDoc\s*\(\s*"([^"]*)""#;

/// Every match of `pattern` in `text`, left to right and without overlap, each
/// given by the character spans of its groups (group 0 is the whole match).
pub uninterp spec fn regex_captures(pattern: Seq<char>, text: Seq<char>) -> Seq<
    Seq<Option<(usize, usize)>>,
>;

/// Start of a span.
pub open spec fn span_lo(p: (usize, usize)) -> int {
    p.0 as int
}

/// End of a span.
pub open spec fn span_hi(p: (usize, usize)) -> int {
    p.1 as int
}

/// Whether `pattern` is accepted by the pattern engine; this depends on the
/// pattern alone.
pub uninterp spec fn pattern_compiles(pattern: Seq<char>) -> bool;

/// The patterns that reading a class body needs all compile.
pub open spec fn property_patterns_ok() -> bool {
    pattern_compiles(PROPERTY_PATTERN@) && pattern_compiles(ANNOTATION_PATTERN@) && pattern_compiles(
        DOC_PATTERN@,
    )
}

/// The patterns that reading enums needs all compile.
pub open spec fn enum_patterns_ok() -> bool {
    pattern_compiles(ENUM_PATTERN@) && pattern_compiles(ENTRY_PATTERN@) && pattern_compiles(DOC_PATTERN@)
}

/// The patterns that reading classes needs all compile.
pub open spec fn class_patterns_ok() -> bool {
    pattern_compiles(CLASS_PATTERN@) && property_patterns_ok()
}

/// Every span lies inside a text of `len` characters.
pub open spec fn spans_within(caps: Seq<Seq<Option<(usize, usize)>>>, len: nat) -> bool {
    forall|i: int, g: int|
        0 <= i < caps.len() && 0 <= g < caps[i].len() && (#[trigger] caps[i][g]) is Some ==> {
            let (a, b) = caps[i][g]->0;
            a <= b <= len
        }
}

/// Relies on `regex::Regex::new` and `Regex::captures_iter`: the matches of a
/// pattern, with each group's byte offsets turned into character offsets.
/// `None` exactly when the pattern does not compile.
#[verifier::external_body]
pub(crate) fn captures_all(pattern: &str, text: &str) -> (r: Option<Vec<Vec<Option<(usize, usize)>>>>)
    ensures
        r is Some <==> pattern_compiles(pattern@),
        r matches Some(v) ==> v@.map_values(|m: Vec<Option<(usize, usize)>>| m@) == regex_captures(
            pattern@,
            text@,
        ) && spans_within(regex_captures(pattern@, text@), text@.len()),
{
    let re = regex::Regex::new(pattern).ok()?;
    let at = |b: usize| text[..b].chars().count();
    Some(
        re.captures_iter(text).map(|c| c.iter().map(|g| g.map(|m| (at(m.start()), at(m.end())))).collect()).collect(),
    )
}

/// The text of group `g` of match `m`, if the group took part.
pub open spec fn group(text: Seq<char>, m: Seq<Option<(usize, usize)>>, g: int) -> Option<Seq<char>> {
    if 0 <= g < m.len() && m[g] is Some {
        Some(text.subrange(span_lo(m[g]->0), span_hi(m[g]->0)))
    } else {
        None
    }
}

/// The text of group `g`, or the empty text.
pub open spec fn group_or_empty(text: Seq<char>, m: Seq<Option<(usize, usize)>>, g: int) -> Seq<char> {
    match group(text, m, g) {
        Some(t) => t,
        None => Seq::empty(),
    }
}

/// Where the whole match ends, or 0.
pub open spec fn match_end(m: Seq<Option<(usize, usize)>>) -> int {
    if m.len() > 0 && m[0] is Some {
        span_hi(m[0]->0)
    } else {
        0
    }
}

/// Where the whole match starts, or 0.
pub open spec fn match_start(m: Seq<Option<(usize, usize)>>) -> int {
    if m.len() > 0 && m[0] is Some {
        span_lo(m[0]->0)
    } else {
        0
    }
}

/// The text of group `g` of `m`, read from `cs`.
pub(crate) fn group_text(cs: &Vec<char>, m: &Vec<Option<(usize, usize)>>, g: usize) -> (r: Option<String>)
    requires
        forall|k: int| 0 <= k < m@.len() && (#[trigger] m@[k]) is Some ==> span_lo(m@[k]->0) <= span_hi(m@[k]->0) <= cs@.len(),
    ensures
        r.deep_view() == group(cs@, m@, g as int),
{
    if g < m.len() {
        match m[g] {
            Some((a, b)) => Some(string_range(cs, a, b)),
            None => None,
        }
    } else {
        None
    }
}

/// The text of group `g` of `m`, or an empty string.
pub(crate) fn group_text_or_empty(cs: &Vec<char>, m: &Vec<Option<(usize, usize)>>, g: usize) -> (r: String)
    requires
        forall|k: int| 0 <= k < m@.len() && (#[trigger] m@[k]) is Some ==> span_lo(m@[k]->0) <= span_hi(m@[k]->0) <= cs@.len(),
    ensures
        r@ == group_or_empty(cs@, m@, g as int),
{
    match group_text(cs, m, g) {
        Some(t) => t,
        None => {
            let e = string_range(cs, 0, 0);
            assert(e@ =~= Seq::<char>::empty());
            e
        },
    }
}

/// Whether `p` occurs in `s`.
pub open spec fn contains_text(s: Seq<char>, p: Seq<char>) -> bool {
    exists|i: int| 0 <= i && i + p.len() <= s.len() && #[trigger] s.subrange(i, i + p.len()) == p
}

/// Whether `pat` occurs in `cs[lo..hi]`.
pub(crate) fn occurs_in(cs: &Vec<char>, lo: usize, hi: usize, pat: &str) -> (r: bool)
    requires
        lo <= hi <= cs@.len(),
    ensures
        r == contains_text(cs@.subrange(lo as int, hi as int), pat@),
{
    let ghost s = cs@.subrange(lo as int, hi as int);
    let n = pat.unicode_len();
    if n > hi - lo {
        return false;
    }
    let last = hi - n;
    let mut i: usize = lo;
    while i < last
        invariant
            lo <= i <= last,
            n <= hi - lo,
            hi <= cs@.len(),
            last == hi - n,
            s == cs@.subrange(lo as int, hi as int),
            n == pat@.len(),
            forall|k: int| 0 <= k < i - lo && k + n <= hi - lo ==> #[trigger] s.subrange(k, k + n) != pat@,
        decreases last - i,
    {
        if prefix_at(cs, i, hi, pat) {
            assert(s.subrange(i - lo, i - lo + n) =~= cs@.subrange(i as int, hi as int).subrange(0, n as int));
            return true;
        }
        assert(s.subrange(i - lo, i - lo + n) =~= cs@.subrange(i as int, hi as int).subrange(0, n as int));
        i = i + 1;
    }
    if prefix_at(cs, last, hi, pat) {
        assert(s.subrange(last - lo, last - lo + n) =~= cs@.subrange(last as int, hi as int).subrange(0, n as int));
        return true;
    }
    assert(s.subrange(last - lo, last - lo + n) =~= cs@.subrange(last as int, hi as int).subrange(0, n as int));
    false
}

/// Whether `cs` ends with `pat`.
pub(crate) fn ends_with_text(cs: &Vec<char>, pat: &str) -> (r: bool)
    ensures
        r == (pat@.len() <= cs@.len() && cs@.subrange(cs@.len() - pat@.len(), cs@.len() as int) == pat@),
{
    let n = pat.unicode_len();
    if n > cs.len() {
        return false;
    }
    let r = prefix_at(cs, cs.len() - n, cs.len(), pat);
    assert(cs@.subrange(cs@.len() - n, cs@.len() as int).subrange(0, n as int) =~= cs@.subrange(cs@.len() - n, cs@.len() as int));
    r
}

/// `s` with repeats left out, first occurrences kept in order.
pub open spec fn dedup(s: Seq<Seq<char>>) -> Seq<Seq<char>>
    decreases s.len(),
{
    if s.len() == 0 {
        Seq::empty()
    } else {
        let r = dedup(s.drop_last());
        if r.contains(s.last()) {
            r
        } else {
            r.push(s.last())
        }
    }
}

/// The first group of each match, or the empty text.
pub open spec fn first_groups(text: Seq<char>, caps: Seq<Seq<Option<(usize, usize)>>>) -> Seq<Seq<char>> {
    caps.map_values(|m: Seq<Option<(usize, usize)>>| group_or_empty(text, m, 1))
}

/// The annotation tags written in `text`, each once, without their `@`.
pub open spec fn annotation_list(text: Seq<char>) -> Seq<Seq<char>> {
    dedup(first_groups(text, regex_captures(ANNOTATION_PATTERN@, text)))
}

/// The quoted text of the first documentation tag in `a`, or the empty text.
pub open spec fn doc_spec(a: Seq<char>) -> Seq<char> {
    let caps = regex_captures(DOC_PATTERN@, a);
    if caps.len() > 0 {
        group_or_empty(a, caps[0], 1)
    } else {
        Seq::empty()
    }
}

/// Whether `v` holds a string with the characters `s`.
fn holds_text(v: &Vec<String>, s: &String) -> (r: bool)
    ensures
        r == v.deep_view().contains(s@),
{
    let mut i: usize = 0;
    while i < v.len()
        invariant
            i <= v@.len(),
            forall|k: int| 0 <= k < i ==> v.deep_view()[k] != s@,
        decreases v@.len() - i,
    {
        if crate::text::same_text(v[i].as_str(), s.as_str()) {
            assert(v.deep_view()[i as int] == s@);
            return true;
        }
        i = i + 1;
    }
    false
}

/// The annotation tags of an annotation block, each once, in order.
pub fn parse_annotations(annotations_str: &str) -> (r: Result<Vec<String>, crate::parser::ParseError>)
    ensures
        match r {
            Ok(v) => v.deep_view() == annotation_list(annotations_str@),
            Err(e) => e == crate::parser::ParseError::BadPattern && !pattern_compiles(ANNOTATION_PATTERN@),
        },
{
    let caps = match captures_all(ANNOTATION_PATTERN, annotations_str) {
        Some(c) => c,
        None => return Err(crate::parser::ParseError::BadPattern),
    };
    let cs = crate::text::chars_of(annotations_str);
    let ghost all = regex_captures(ANNOTATION_PATTERN@, annotations_str@);
    let ghost tags = first_groups(annotations_str@, all);
    let mut out: Vec<String> = Vec::new();
    let mut i: usize = 0;
    while i < caps.len()
        invariant
            i <= caps@.len() == all.len(),
            cs@ == annotations_str@,
            caps@.map_values(|m: Vec<Option<(usize, usize)>>| m@) == all,
            spans_within(all, cs@.len()),
            tags == first_groups(annotations_str@, all),
            out.deep_view() == dedup(tags.subrange(0, i as int)),
        decreases caps@.len() - i,
    {
        assert(caps@[i as int]@ == all[i as int]);
        assert forall|k: int| 0 <= k < caps@[i as int]@.len() && (#[trigger] caps@[i as int]@[k]) is Some implies span_lo(caps@[i as int]@[k]->0) <= span_hi(caps@[i as int]@[k]->0) <= cs@.len() by {
            assert(all[i as int][k] is Some);
        }
        let t = group_text_or_empty(&cs, &caps[i], 1);
        assert(tags.subrange(0, i + 1).drop_last() =~= tags.subrange(0, i as int));
        if !holds_text(&out, &t) {
            let ghost prev = out;
            out.push(t);
            proof {
                lemma_push_deep(prev, out, out@.last());
            }
        }
        i = i + 1;
    }
    assert(tags.subrange(0, i as int) =~= tags);
    Ok(out)
}

/// The quoted text of the first documentation tag in `annotation`, or an empty string.
pub fn extract_doc_string(annotation: &str) -> (r: Result<String, crate::parser::ParseError>)
    ensures
        match r {
            Ok(s) => s@ == doc_spec(annotation@),
            Err(e) => e == crate::parser::ParseError::BadPattern && !pattern_compiles(DOC_PATTERN@),
        },
{
    let caps = match captures_all(DOC_PATTERN, annotation) {
        Some(c) => c,
        None => return Err(crate::parser::ParseError::BadPattern),
    };
    let cs = crate::text::chars_of(annotation);
    let ghost all = regex_captures(DOC_PATTERN@, annotation@);
    if caps.len() > 0 {
        assert(caps@[0]@ == all[0]);
        assert forall|k: int| 0 <= k < caps@[0]@.len() && (#[trigger] caps@[0]@[k]) is Some implies span_lo(caps@[0]@[k]->0) <= span_hi(caps@[0]@[k]->0) <= cs@.len() by {
            assert(all[0][k] is Some);
        }
        Ok(group_text_or_empty(&cs, &caps[0], 1))
    } else {
        let e = string_range(&cs, 0, 0);
        assert(e@ =~= Seq::<char>::empty());
        Ok(e)
    }
}

} // verus!
