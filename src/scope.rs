//! The tree of scopes: an arena of nodes, each with an optional parent and a list of context
//! entries, and a cursor naming the current scope.

use vstd::prelude::*;

verus! {

/// A context value together with the tag that identifies its kind. Two entries of the same
/// kind carry the same tag.
pub struct Entry<V> {
    pub tag: u64,
    pub value: V,
}

/// One scope: the index of its parent (none for a root) and its context entries.
pub struct ScopeNode<V> {
    pub parent: Option<usize>,
    pub context: Vec<Entry<V>>,
}

/// The arena of scopes and the index of the current one.
pub struct Root<V> {
    pub nodes: Vec<ScopeNode<V>>,
    pub current_node: usize,
}

/// A scope as a mathematical value.
pub struct NodeView<V> {
    pub parent: Option<usize>,
    pub context: Seq<Entry<V>>,
}

/// The whole tree as a mathematical value.
pub struct TreeView<V> {
    pub nodes: Seq<NodeView<V>>,
    pub current: int,
}

impl<V> View for ScopeNode<V> {
    type V = NodeView<V>;

    open spec fn view(&self) -> NodeView<V> {
        NodeView { parent: self.parent, context: self.context@ }
    }
}

impl<V> View for Root<V> {
    type V = TreeView<V>;

    open spec fn view(&self) -> TreeView<V> {
        TreeView {
            nodes: self.nodes@.map_values(|n: ScopeNode<V>| n@),
            current: self.current_node as int,
        }
    }
}

/// The value of the first entry at or after position `i` whose tag is `tag`.
pub open spec fn find_from<V>(ctx: Seq<Entry<V>>, i: int, tag: u64) -> Option<V>
    decreases ctx.len() - i,
{
    if i < 0 || i >= ctx.len() {
        None
    } else if ctx[i].tag == tag {
        Some(ctx[i].value)
    } else {
        find_from(ctx, i + 1, tag)
    }
}

/// The value of the entry of a context list whose tag is `tag`, if any.
pub open spec fn find_in<V>(ctx: Seq<Entry<V>>, tag: u64) -> Option<V> {
    find_from(ctx, 0, tag)
}

/// No two entries of a context list share a tag.
pub open spec fn tags_unique<V>(ctx: Seq<Entry<V>>) -> bool {
    forall|i: int, j: int| 0 <= i < j < ctx.len() ==> ctx[i].tag != ctx[j].tag
}

/// Some entry of a context list has the tag `tag`.
pub open spec fn has_tag<V>(ctx: Seq<Entry<V>>, tag: u64) -> bool {
    exists|i: int| 0 <= i < ctx.len() && ctx[i].tag == tag
}

impl<V> TreeView<V> {
    /// Every parent comes before its child in the arena (so the parent links form no cycle),
    /// the current scope exists, and no scope holds two entries of one tag.
    pub open spec fn wf(self) -> bool {
        &&& 0 <= self.current < self.nodes.len()
        &&& forall|i: int|
            0 <= i < self.nodes.len() ==> match #[trigger] self.nodes[i].parent {
                Some(p) => p < i,
                None => true,
            }
        &&& forall|i: int| 0 <= i < self.nodes.len() ==> tags_unique(#[trigger] self.nodes[i].context)
    }

    /// The ancestor walk: the nearest value tagged `tag` from scope `id` up to its root.
    pub open spec fn lookup(self, id: int, tag: u64) -> Option<V>
        decreases id,
    {
        if !(0 <= id < self.nodes.len()) {
            None
        } else {
            match find_in(self.nodes[id].context, tag) {
                Some(v) => Some(v),
                None => match self.nodes[id].parent {
                    Some(p) => if p < id {
                        self.lookup(p as int, tag)
                    } else {
                        None
                    },
                    None => None,
                },
            }
        }
    }

    /// The number of scopes from `id` up to and including its root.
    pub open spec fn depth(self, id: int) -> nat
        decreases id,
    {
        if !(0 <= id < self.nodes.len()) {
            0
        } else {
            match self.nodes[id].parent {
                Some(p) => if p < id {
                    1 + self.depth(p as int)
                } else {
                    1
                },
                None => 1,
            }
        }
    }

    /// The walk up from `id` arrives at scope `s` without passing a scope (other than `s`)
    /// that holds an entry tagged `tag`.
    pub open spec fn reaches_unshadowed(self, id: int, s: int, tag: u64) -> bool
        decreases id,
    {
        if id == s {
            true
        } else if !(0 <= id < self.nodes.len()) || has_tag(self.nodes[id].context, tag) {
            false
        } else {
            match self.nodes[id].parent {
                Some(p) => p < id && self.reaches_unshadowed(p as int, s, tag),
                None => false,
            }
        }
    }

    /// The tree after appending an entry to the current scope's context list.
    pub open spec fn with_provided(self, tag: u64, value: V) -> TreeView<V> {
        self.with_provided_in(self.current, tag, value)
    }

    /// The tree after appending an entry to the context list of scope `id`.
    pub open spec fn with_provided_in(self, id: int, tag: u64, value: V) -> TreeView<V> {
        TreeView {
            nodes: self.nodes.update(
                id,
                NodeView {
                    parent: self.nodes[id].parent,
                    context: self.nodes[id].context.push(Entry { tag, value }),
                },
            ),
            current: self.current,
        }
    }

    /// The tree after adding a child of the current scope, with an empty context list, and
    /// making it current.
    pub open spec fn with_child(self) -> TreeView<V> {
        TreeView {
            nodes: self.nodes.push(
                NodeView { parent: Some(self.current as usize), context: Seq::empty() },
            ),
            current: self.nodes.len() as int,
        }
    }

    /// The scopes at indices up to and including `id` are the same in both trees.
    pub open spec fn agrees_up_to(self, other: TreeView<V>, id: int) -> bool {
        &&& id < self.nodes.len()
        &&& id < other.nodes.len()
        &&& forall|i: int| 0 <= i <= id ==> self.nodes[i] == other.nodes[i]
    }
}

/// Appending an entry changes a search of the list only where the list held no entry of the
/// tag searched for.
pub proof fn lemma_find_from_push<V>(ctx: Seq<Entry<V>>, i: int, e: Entry<V>, tag: u64)
    requires
        0 <= i,
    ensures
        find_from(ctx.push(e), i, tag) == match find_from(ctx, i, tag) {
            Some(v) => Some(v),
            None => if i <= ctx.len() && e.tag == tag {
                Some(e.value)
            } else {
                None
            },
        },
    decreases ctx.len() - i,
{
    if i < ctx.len() {
        assert(ctx.push(e)[i] == ctx[i]);
        lemma_find_from_push(ctx, i + 1, e, tag);
    } else if i == ctx.len() {
        assert(ctx.push(e)[i] == e);
        assert(find_from(ctx.push(e), i + 1, tag) is None);
    }
}

/// A search from position `i` finds something whenever an entry at or after `i` has the tag.
pub proof fn lemma_find_from_found<V>(ctx: Seq<Entry<V>>, i: int, j: int, tag: u64)
    requires
        0 <= i <= j < ctx.len(),
        ctx[j].tag == tag,
    ensures
        find_from(ctx, i, tag) is Some,
    decreases j - i,
{
    if ctx[i].tag != tag {
        lemma_find_from_found(ctx, i + 1, j, tag);
    }
}

/// A search finds nothing in a list that holds no entry of the tag.
pub proof fn lemma_find_from_absent<V>(ctx: Seq<Entry<V>>, i: int, tag: u64)
    requires
        0 <= i,
        !has_tag(ctx, tag),
    ensures
        find_from(ctx, i, tag) is None,
    decreases ctx.len() - i,
{
    if i < ctx.len() {
        assert(ctx[i].tag != tag);
        lemma_find_from_absent(ctx, i + 1, tag);
    }
}

/// A context list holds an entry of a tag exactly when a search for the tag finds one.
pub proof fn lemma_find_in_iff_has_tag<V>(ctx: Seq<Entry<V>>, tag: u64)
    ensures
        find_in(ctx, tag) is Some <==> has_tag(ctx, tag),
{
    if has_tag(ctx, tag) {
        let j = choose|j: int| 0 <= j < ctx.len() && ctx[j].tag == tag;
        lemma_find_from_found(ctx, 0, j, tag);
    } else {
        lemma_find_from_absent(ctx, 0, tag);
    }
}

/// The walk from `id` reads only the scopes at indices up to `id`.
pub proof fn lemma_lookup_frame<V>(a: TreeView<V>, b: TreeView<V>, id: int, tag: u64)
    requires
        0 <= id,
        a.agrees_up_to(b, id),
    ensures
        a.lookup(id, tag) == b.lookup(id, tag),
    decreases id,
{
    assert(a.nodes[id] == b.nodes[id]);
    match a.nodes[id].parent {
        Some(p) => {
            if p < id {
                lemma_lookup_frame(a, b, p as int, tag);
            }
        },
        None => {},
    }
}

impl<V> Root<V> {
    /// A tree with a single root scope, which is current.
    pub fn new() -> (r: Root<V>)
        ensures
            r@.wf(),
            r@.nodes.len() == 1,
            r@.nodes[0].parent is None,
            r@.nodes[0].context.len() == 0,
            r@.current == 0,
    {
        let mut nodes: Vec<ScopeNode<V>> = Vec::new();
        nodes.push(ScopeNode { parent: None, context: Vec::new() });
        let r = Root { nodes, current_node: 0 };
        assert(r@.nodes[0].context =~= Seq::<Entry<V>>::empty());
        r
    }

    /// Adds a child of the current scope, with no context entries, and makes it current.
    /// Returns the index of the scope that was current before.
    pub fn create_child_scope(&mut self) -> (prev: usize)
        requires
            old(self)@.wf(),
            old(self)@.nodes.len() < usize::MAX,
        ensures
            prev == old(self)@.current,
            final(self)@ == old(self)@.with_child(),
            final(self)@.wf(),
    {
        let prev = self.current_node;
        let child = self.nodes.len();
        self.nodes.push(ScopeNode { parent: Some(prev), context: Vec::new() });
        self.current_node = child;
        assert(self@.nodes[child as int].context =~= Seq::<Entry<V>>::empty());
        assert(self@.nodes =~= old(self)@.with_child().nodes);
        prev
    }

    /// Makes scope `id` current.
    pub fn set_current(&mut self, id: usize)
        requires
            old(self)@.wf(),
            id < old(self)@.nodes.len(),
        ensures
            final(self)@ == (TreeView { current: id as int, ..old(self)@ }),
            final(self)@.wf(),
    {
        self.current_node = id;
    }

    /// Drops every context entry of scope `id`, as when the scope is cleaned up to run again.
    pub fn clear_context(&mut self, id: usize)
        requires
            old(self)@.wf(),
            id < old(self)@.nodes.len(),
        ensures
            final(self)@.current == old(self)@.current,
            final(self)@.nodes == old(self)@.nodes.update(
                id as int,
                NodeView { parent: old(self)@.nodes[id as int].parent, context: Seq::empty() },
            ),
            final(self)@.wf(),
    {
        self.nodes[id].context.clear();
        assert(self@.nodes[id as int].context =~= Seq::<Entry<V>>::empty());
        assert(self@.nodes =~= old(self)@.nodes.update(
            id as int,
            NodeView { parent: old(self)@.nodes[id as int].parent, context: Seq::empty() },
        ));
    }
}

} // verus!
