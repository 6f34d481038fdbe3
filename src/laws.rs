//! What holds of the operations together: visibility below the providing scope, shadowing,
//! refusal of duplicates, seeding by `use_context_or_else`, and the depth of a scope.

use vstd::prelude::*;

use crate::context::lemma_provided_found_here;
use crate::scope::{find_in, has_tag, lemma_find_in_iff_has_tag, TreeView};

verus! {

/// A walk that reaches scope `s` without meeting the tag earlier finds what `s` holds.
pub proof fn lemma_lookup_reaches<V>(t: TreeView<V>, id: int, s: int, tag: u64, v: V)
    requires
        t.wf(),
        0 <= s < t.nodes.len(),
        find_in(t.nodes[s].context, tag) == Some(v),
        t.reaches_unshadowed(id, s, tag),
    ensures
        t.lookup(id, tag) == Some(v),
    decreases id,
{
    if id != s {
        lemma_find_in_iff_has_tag(t.nodes[id].context, tag);
        let p = t.nodes[id].parent->Some_0;
        lemma_lookup_reaches(t, p as int, s, tag, v);
    }
}

/// Once a value is provided in the current scope, a lookup of its tag from that scope, or from
/// any scope below it whose walk up meets no other value of the tag first, gives that value.
pub proof fn lemma_provided_visible<V>(t: TreeView<V>, id: int, tag: u64, value: V)
    requires
        t.wf(),
        !has_tag(t.nodes[t.current].context, tag),
        t.reaches_unshadowed(id, t.current, tag),
    ensures
        t.with_provided(tag, value).lookup(id, tag) == Some(value),
    decreases id,
{
    let t2 = t.with_provided(tag, value);
    lemma_provided_found_here(t, t.current, tag, value);
    if id != t.current {
        assert(t2.nodes[id] == t.nodes[id]);
        lemma_find_in_iff_has_tag(t.nodes[id].context, tag);
        let p = t.nodes[id].parent->Some_0;
        lemma_provided_visible(t, p as int, tag, value);
    }
}

/// Shadowing: with `v1` provided in scope `s` and `v2` then provided in the current scope,
/// lookups whose walk meets the current scope first give `v2`, and lookups whose walk meets
/// `s` first, `s` itself among them, still give `v1`.
pub proof fn lemma_shadowing<V>(
    t: TreeView<V>,
    s: int,
    tag: u64,
    v1: V,
    v2: V,
    below_current: int,
    below_s: int,
)
    requires
        t.wf(),
        0 <= s < t.nodes.len(),
        s != t.current,
        find_in(t.nodes[s].context, tag) == Some(v1),
        !has_tag(t.nodes[t.current].context, tag),
        t.reaches_unshadowed(below_current, t.current, tag),
        t.with_provided(tag, v2).reaches_unshadowed(below_s, s, tag),
    ensures
        t.with_provided(tag, v2).lookup(below_current, tag) == Some(v2),
        t.with_provided(tag, v2).lookup(below_s, tag) == Some(v1),
        t.with_provided(tag, v2).lookup(s, tag) == Some(v1),
{
    let t2 = t.with_provided(tag, v2);
    lemma_provided_visible(t, below_current, tag, v2);
    lemma_provided_found_here(t, t.current, tag, v2);
    assert(t2.nodes[s] == t.nodes[s]);
    lemma_lookup_reaches(t2, below_s, s, tag, v1);
    lemma_lookup_reaches(t2, s, s, tag, v1);
}

/// Duplicates are refused per scope: after a value is provided in the current scope, that
/// scope holds its tag (so a second provide of the tag there is refused), while a new child
/// scope holds no entry at all (so providing the tag again there is allowed).
pub proof fn lemma_duplicate_per_scope<V>(t: TreeView<V>, tag: u64, value: V)
    requires
        t.wf(),
        !has_tag(t.nodes[t.current].context, tag),
    ensures
        has_tag(t.with_provided(tag, value).nodes[t.current].context, tag),
        t.with_provided(tag, value).with_child().wf(),
        !has_tag(
            t.with_provided(tag, value).with_child().nodes[t.nodes.len() as int].context,
            tag,
        ),
{
    let t2 = t.with_provided(tag, value);
    lemma_provided_found_here(t, t.current, tag, value);
    let n = t.nodes[t.current].context.len() as int;
    assert(t2.nodes[t.current].context[n].tag == tag);
    let t3 = t2.with_child();
    assert forall|i: int| 0 <= i < t3.nodes.len() implies match #[trigger] t3.nodes[i].parent {
        Some(p) => p < i,
        None => true,
    } by {
        if i < t2.nodes.len() {
            assert(t3.nodes[i] == t2.nodes[i]);
        }
    }
    assert forall|i: int| 0 <= i < t3.nodes.len() implies crate::scope::tags_unique(
        #[trigger] t3.nodes[i].context,
    ) by {
        if i < t2.nodes.len() {
            assert(t3.nodes[i] == t2.nodes[i]);
        }
    }
}

/// When a lookup from the current scope finds nothing, `use_context_or_else` provides the
/// fallback there; after that the same lookup finds it, so a second call does not use its
/// fallback.
pub proof fn lemma_or_else_seeds<V>(t: TreeView<V>, tag: u64, seeded: V)
    requires
        t.wf(),
        t.lookup(t.current, tag) is None,
    ensures
        t.with_provided(tag, seeded).lookup(t.current, tag) == Some(seeded),
{
    lemma_find_in_iff_has_tag(t.nodes[t.current].context, tag);
    lemma_provided_found_here(t, t.current, tag, seeded);
}

/// A scope is one deeper than its parent, and a root has depth 1.
pub proof fn lemma_depth_step<V>(t: TreeView<V>, id: int)
    requires
        t.wf(),
        0 <= id < t.nodes.len(),
    ensures
        t.nodes[id].parent is None ==> t.depth(id) == 1,
        t.nodes[id].parent is Some ==> t.depth(id) == t.depth(t.nodes[id].parent->Some_0 as int)
            + 1,
        t.nodes[id].parent is Some ==> t.depth(t.nodes[id].parent->Some_0 as int) < t.depth(id),
{
}

} // verus!
