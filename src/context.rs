//! Providing and using context values.

use vstd::prelude::*;

use crate::scope::{
    find_from, find_in, has_tag, lemma_find_from_absent, lemma_find_from_push,
    lemma_find_in_iff_has_tag, lemma_lookup_frame, Entry, Root, TreeView,
};

verus! {

/// After an entry tagged `tag` is appended to a scope that held none, a walk from that scope
/// finds the new value.
pub proof fn lemma_provided_found_here<V>(t: TreeView<V>, id: int, tag: u64, value: V)
    requires
        t.wf(),
        0 <= id < t.nodes.len(),
        !has_tag(t.nodes[id].context, tag),
    ensures
        t.with_provided_in(id, tag, value).lookup(id, tag) == Some(value),
        t.with_provided_in(id, tag, value).wf(),
{
    let ctx = t.nodes[id].context;
    let e = Entry { tag, value };
    lemma_find_from_push(ctx, 0, e, tag);
    lemma_find_from_absent(ctx, 0, tag);
    let t2 = t.with_provided_in(id, tag, value);
    assert(t2.nodes[id].context == ctx.push(e));
    assert forall|i: int| 0 <= i < t2.nodes.len() implies crate::scope::tags_unique(
        #[trigger] t2.nodes[i].context,
    ) by {
        if i == id {
            assert forall|a: int, b: int|
                0 <= a < b < ctx.push(e).len() implies ctx.push(e)[a].tag != ctx.push(e)[b].tag by {
                if b == ctx.len() {
                    assert(ctx[a].tag != tag);
                } else {
                    assert(crate::scope::tags_unique(t.nodes[id].context));
                }
            }
        } else {
            assert(t2.nodes[i] == t.nodes[i]);
        }
    }
    assert forall|i: int| 0 <= i < t2.nodes.len() implies match #[trigger] t2.nodes[i].parent {
        Some(p) => p < i,
        None => true,
    } by {
        assert(t.nodes[i].parent == t2.nodes[i].parent);
    }
}

/// Appends an entry to the context list of scope `id`. A scope may hold at most one entry of
/// each tag, so providing a tag that the scope already holds is a caller error.
fn provide_context_in_node<V>(root: &mut Root<V>, id: usize, tag: u64, value: V)
    requires
        old(root)@.wf(),
        id < old(root)@.nodes.len(),
        !has_tag(old(root)@.nodes[id as int].context, tag),
    ensures
        final(root)@ == old(root)@.with_provided_in(id as int, tag, value),
        final(root)@.wf(),
{
    root.nodes[id].context.push(Entry { tag, value });
    assert(root@.nodes =~= old(root)@.with_provided_in(id as int, tag, value).nodes);
    proof {
        lemma_provided_found_here(old(root)@, id as int, tag, value);
    }
}

/// Provides a context value in the current scope. The current scope must not hold a value of
/// the same tag already; other scopes may.
pub fn provide_context<V>(root: &mut Root<V>, tag: u64, value: V)
    requires
        old(root)@.wf(),
        !has_tag(old(root)@.nodes[old(root)@.current].context, tag),
    ensures
        final(root)@ == old(root)@.with_provided(tag, value),
        final(root)@.wf(),
        final(root)@.lookup(final(root)@.current, tag) == Some(value),
        has_tag(final(root)@.nodes[final(root)@.current].context, tag),
{
    let id = root.current_node;
    proof {
        lemma_provided_found_here(root@, id as int, tag, value);
    }
    provide_context_in_node(root, id, tag, value);
    assert(root@.nodes[id as int].context[old(root)@.nodes[id as int].context.len() as int].tag
        == tag);
}

/// Whether the current scope already holds a value of the given tag, that is whether
/// [`provide_context`] would refuse it.
pub fn has_context_here<V>(root: &Root<V>, tag: u64) -> (r: bool)
    requires
        root@.wf(),
    ensures
        r == has_tag(root@.nodes[root@.current].context, tag),
{
    let node = &root.nodes[root.current_node];
    assert(node@ == root@.nodes[root@.current]);
    let mut i: usize = 0;
    while i < node.context.len()
        invariant
            root@.wf(),
            node@ == root@.nodes[root@.current],
            i <= node.context@.len(),
            forall|j: int| 0 <= j < i ==> node.context@[j].tag != tag,
        decreases node.context@.len() - i,
    {
        if node.context[i].tag == tag {
            assert(node.context@[i as int].tag == tag);
            return true;
        }
        i += 1;
    }
    false
}

/// Tries to get a copy of the nearest context value of the given tag, walking from the current
/// scope to its root. Returns `None` if no scope on the way provides one.
pub fn try_use_context<V: Clone>(root: &Root<V>, tag: u64) -> (r: Option<V>)
    requires
        root@.wf(),
    ensures
        r is Some <==> root@.lookup(root@.current, tag) is Some,
        r is Some ==> cloned(root@.lookup(root@.current, tag)->Some_0, r->Some_0),
{
    match find_context(root, tag) {
        Some(v) => Some(v.clone()),
        None => None,
    }
}

/// Gets a copy of the nearest context value of the given tag. Some scope from the current one
/// up to its root must provide one.
pub fn use_context<V: Clone>(root: &Root<V>, tag: u64) -> (r: V)
    requires
        root@.wf(),
        root@.lookup(root@.current, tag) is Some,
    ensures
        cloned(root@.lookup(root@.current, tag)->Some_0, r),
{
    match find_context(root, tag) {
        Some(v) => v.clone(),
        None => unreached(),
    }
}


/// The ancestor walk: starting at the current scope and going up through the parents, the
/// value of the first entry tagged `tag`, or none if no scope on the way holds one.
pub fn find_context<V>(root: &Root<V>, tag: u64) -> (r: Option<&V>)
    requires
        root@.wf(),
    ensures
        match r {
            Some(v) => root@.lookup(root@.current, tag) == Some(*v),
            None => root@.lookup(root@.current, tag) is None,
        },
{
    let mut id: usize = root.current_node;
    loop
        invariant
            root@.wf(),
            id < root@.nodes.len(),
            root@.lookup(id as int, tag) == root@.lookup(root@.current, tag),
        decreases id,
    {
        let node = &root.nodes[id];
        assert(node@ == root@.nodes[id as int]);
        let mut i: usize = 0;
        while i < node.context.len()
            invariant
                root@.wf(),
                id < root@.nodes.len(),
                node@ == root@.nodes[id as int],
                root@.lookup(id as int, tag) == root@.lookup(root@.current, tag),
                i <= node.context@.len(),
                find_in(node.context@, tag) == find_from(node.context@, i as int, tag),
            decreases node.context@.len() - i,
        {
            if node.context[i].tag == tag {
                assert(find_from(node.context@, i as int, tag) == Some(node.context@[i as int].value));
                assert(root@.lookup(id as int, tag) == Some(node.context@[i as int].value));
                return Some(&node.context[i].value);
            }
            i += 1;
        }
        match node.parent {
            Some(p) => {
                id = p;
            },
            None => {
                return None;
            },
        }
    }
}

/// Gets a copy of the nearest context value of the given tag. If no scope from the current one
/// up to its root provides one, calls `f` for a value, provides a copy of it in the current
/// scope, and returns it: later lookups at or below the current scope then find it.
pub fn use_context_or_else<V: Clone, F: FnOnce() -> V>(root: &mut Root<V>, tag: u64, f: F) -> (r: V)
    requires
        old(root)@.wf(),
        old(root)@.lookup(old(root)@.current, tag) is None ==> f.requires(()),
    ensures
        final(root)@.wf(),
        match old(root)@.lookup(old(root)@.current, tag) {
            Some(v) => final(root)@ == old(root)@ && cloned(v, r),
            None => {
                let c = old(root)@.current;
                let seeded = final(root)@.nodes[c].context.last().value;
                &&& f.ensures((), r)
                &&& cloned(r, seeded)
                &&& final(root)@ == old(root)@.with_provided(tag, seeded)
                &&& final(root)@.lookup(c, tag) == Some(seeded)
            },
        },
{
    match try_use_context(root, tag) {
        Some(v) => v,
        None => {
            let value = f();
            let copy = value.clone();
            proof {
                lemma_find_in_iff_has_tag(root@.nodes[root@.current].context, tag);
            }
            provide_context(root, tag, copy);
            assert(root@.nodes[root@.current].context.last().value == copy);
            value
        },
    }
}

/// How many scopes there are from the current one up to and including its root: 1 in a root
/// scope, one more for each level below.
pub fn use_scope_depth<V>(root: &Root<V>) -> (r: u32)
    requires
        root@.wf(),
        root@.depth(root@.current) <= u32::MAX,
    ensures
        r == root@.depth(root@.current),
        root@.nodes[root@.current].parent is None ==> r == 1,
        root@.nodes[root@.current].parent is Some ==> r == root@.depth(
            root@.nodes[root@.current].parent->Some_0 as int,
        ) + 1,
{
    let mut id: usize = root.current_node;
    let mut depth: u32 = 0;
    loop
        invariant
            root@.wf(),
            id < root@.nodes.len(),
            depth + root@.depth(id as int) == root@.depth(root@.current),
            root@.depth(root@.current) <= u32::MAX,
        decreases id,
    {
        assert(root@.depth(id as int) >= 1);
        depth = depth + 1;
        match root.nodes[id].parent {
            Some(p) => {
                id = p;
            },
            None => {
                return depth;
            },
        }
    }
}

/// The scopes outside a body's own scope come out of the body as they went in: the body may
/// add scopes and provide in its own scope and below, nothing else.
pub open spec fn keeps_outside<V>(before: TreeView<V>, after: TreeView<V>) -> bool {
    &&& after.wf()
    &&& after.nodes.len() >= before.nodes.len()
    &&& 0 <= before.current
    &&& forall|i: int| 0 <= i < before.current ==> after.nodes[i] == before.nodes[i]
}

/// Runs `f` in a new child of the current scope that provides `value` under `tag`, then makes
/// the previous scope current again and returns what `f` returned. The child is empty when the
/// value goes in, so this never meets a duplicate; and afterwards the value cannot be reached
/// from the previous scope: every lookup there gives what it gave before the call.
pub fn provide_context_in_new_scope<V, U, F: FnOnce(Root<V>) -> (Root<V>, U)>(
    root: &mut Root<V>,
    tag: u64,
    value: V,
    f: F,
) -> (r: U)
    requires
        old(root)@.wf(),
        old(root)@.nodes.len() < usize::MAX,
        forall|t: Root<V>|
            t@ == old(root)@.with_child().with_provided(tag, value) ==> #[trigger] f.requires(
                (t,),
            ),
        forall|t: Root<V>, out: (Root<V>, U)|
            t@ == old(root)@.with_child().with_provided(tag, value) && #[trigger] f.ensures(
                (t,),
                out,
            ) ==> keeps_outside(t@, out.0@),
    ensures
        final(root)@.wf(),
        final(root)@.current == old(root)@.current,
        final(root)@.nodes.len() > old(root)@.nodes.len(),
        final(root)@.agrees_up_to(old(root)@, old(root)@.nodes.len() - 1),
        forall|k: u64|
            #[trigger] final(root)@.lookup(final(root)@.current, k) == old(root)@.lookup(
                old(root)@.current,
                k,
            ),
        exists|t: Root<V>, out: Root<V>|
            {
                &&& t@ == old(root)@.with_child().with_provided(tag, value)
                &&& #[trigger] f.ensures((t,), (out, r))
                &&& final(root)@ == (TreeView { current: old(root)@.current, ..out@ })
            },
{
    let prev = root.create_child_scope();
    let child = root.current_node;
    assert(root@.nodes[child as int].context.len() == 0);
    provide_context(root, tag, value);
    let mut inner: Root<V> = Root { nodes: Vec::new(), current_node: 0 };
    std::mem::swap(root, &mut inner);
    let ghost given = inner;
    let (mut out, r) = f(inner);
    let ghost returned = out;
    assert(keeps_outside(given@, out@));
    out.current_node = prev;
    *root = out;
    proof {
        assert forall|i: int| 0 <= i <= old(root)@.nodes.len() - 1 implies root@.nodes[i]
            == old(root)@.nodes[i] by {
            assert(given@.nodes[i] == old(root)@.nodes[i]);
        }
        assert forall|k: u64|
            #[trigger] root@.lookup(root@.current, k) == old(root)@.lookup(
                old(root)@.current,
                k,
            ) by {
            lemma_lookup_frame(root@, old(root)@, prev as int, k);
        }
        assert(f.ensures((given,), (returned, r)));
        assert(root@ == (TreeView { current: old(root)@.current, ..returned@ }));
    }
    r
}

} // verus!
