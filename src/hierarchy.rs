//! Fills in the subclasses of each sealed class.
use vstd::prelude::*;

use crate::text::{lemma_push_deep, same_text};
use crate::types::{ClassView, ParsingContext};

verus! {

/// Names of the classes of `s` whose parent is `n`, in order.
pub open spec fn children_of(s: Seq<ClassView>, n: Seq<char>) -> Seq<Seq<char>>
    decreases s.len(),
{
    if s.len() == 0 {
        Seq::empty()
    } else {
        let r = children_of(s.drop_last(), n);
        if s.last().parent == Some(n) {
            r.push(s.last().name)
        } else {
            r
        }
    }
}

/// Class `c` of `s` once resolved: a sealed class lists its children.
pub open spec fn resolved_class(s: Seq<ClassView>, c: ClassView) -> ClassView {
    if c.is_sealed {
        ClassView { subclasses: children_of(s, c.name), ..c }
    } else {
        c
    }
}

/// Every class of `s` resolved against `s`.
pub open spec fn resolved(s: Seq<ClassView>) -> Seq<ClassView> {
    s.map_values(|c: ClassView| resolved_class(s, c))
}

/// Names of the classes whose parent is `name`, in order.
fn children_named(context: &ParsingContext, name: &String) -> (r: Vec<String>)
    ensures
        r.deep_view() == children_of(context.class_views(), name@),
{
    let ghost all = context.class_views();
    let n = context.class_count();
    let mut out: Vec<String> = Vec::new();
    let mut i: usize = 0;
    while i < n
        invariant
            i <= n == all.len(),
            all == context.class_views(),
            out.deep_view() == children_of(all.subrange(0, i as int), name@),
        decreases n - i,
    {
        let c = context.class_at(i);
        assert(all.subrange(0, i + 1).drop_last() =~= all.subrange(0, i as int));
        assert(all.subrange(0, i + 1).last() == c@);
        let is_child = match &c.parent {
            Some(p) => same_text(p.as_str(), name.as_str()),
            None => false,
        };
        if is_child {
            let ghost prev = out;
            out.push(c.name.clone());
            proof {
                lemma_push_deep(prev, out, c.name);
            }
        }
        i = i + 1;
    }
    assert(all.subrange(0, i as int) =~= all);
    out
}

/// Sets the subclasses of every sealed class to the classes whose parent it
/// is, in graph order; other classes are left as they are.
pub fn resolve_sealed_hierarchies(context: &mut ParsingContext)
    requires
        old(context).wf(),
    ensures
        final(context).wf(),
        final(context).enums == old(context).enums,
        final(context).verbose == old(context).verbose,
        final(context).class_views() == resolved(old(context).class_views()),
{
    let ghost start = context.class_views();
    let n = context.class_count();
    let mut lists: Vec<Option<Vec<String>>> = Vec::new();
    let mut i: usize = 0;
    while i < n
        invariant
            i <= n == start.len(),
            context.class_views() == start,
            lists@.len() == i,
            forall|k: int| 0 <= k < i ==> match #[trigger] lists@[k] {
                Some(v) => start[k].is_sealed && v.deep_view() == children_of(start, start[k].name),
                None => !start[k].is_sealed,
            },
        decreases n - i,
    {
        let c = context.class_at(i);
        if c.is_sealed {
            let v = children_named(context, &c.name);
            lists.push(Some(v));
        } else {
            lists.push(None);
        }
        i = i + 1;
    }
    let mut j: usize = n;
    while j > 0
        invariant
            j <= n == start.len() == context.class_views().len(),
            lists@.len() == j,
            forall|k: int| 0 <= k < j ==> match #[trigger] lists@[k] {
                Some(v) => start[k].is_sealed && v.deep_view() == children_of(start, start[k].name),
                None => !start[k].is_sealed,
            },
            forall|k: int| 0 <= k < j ==> #[trigger] context.class_views()[k] == start[k],
            forall|k: int| j <= k < n ==> #[trigger] context.class_views()[k] == resolved_class(start, start[k]),
            context.wf(),
            context.enums == old(context).enums,
            context.verbose == old(context).verbose,
            start == old(context).class_views(),
        decreases j,
    {
        let entry = lists.pop().unwrap();
        j = j - 1;
        match entry {
            Some(v) => {
                let ghost before = context.class_views();
                let ghost vv = v.deep_view();
                context.set_subclasses(j, v);
                assert(before[j as int] == start[j as int]);
                assert(context.class_views()[j as int] == resolved_class(start, start[j as int]));
                assert forall|k: int| 0 <= k < n && k != j implies #[trigger] context.class_views()[k] == before[k] by {}
            },
            None => {
                assert(context.class_views()[j as int] == resolved_class(start, start[j as int]));
            },
        }
    }
    assert(context.class_views() =~= resolved(start));
}

} // verus!
