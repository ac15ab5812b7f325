//! The node forest: a flat arena of nodes with parent/child adjacency,
//! dirty bits and cached layout results.
//!
//! Three parallel sequences are indexed by node id: the node records,
//! the ordered child lists and the parent lists.  Parent lists are
//! sets stored as sequences.  [`Forest::wf`] states the structural
//! invariant every operation preserves, chiefly that `j` is a child of
//! `i` exactly when `i` is a parent of `j`.

use vstd::prelude::*;
use crate::ancestry::{is_ancestor, lemma_ancestor_extend, lemma_ancestor_refl, lemma_reaches_closed, reaches_up, step_up};
use crate::geometry::Size;
use crate::layout::{Cache, Layout, empty_layout};
use crate::number::Number;
use crate::style::Style;

verus! {

/// Everything the forest stores for one node: its style, an optional
/// measurement callback for leaf content, the last computed layout and
/// its cache, the dirty bit, the scroll-view flag, a host-assigned
/// translation with clip extents, a scroll offset (kept non-negative),
/// and two counters the host uses for scrollable content extent.
pub struct NodeData<M> {
    pub style: Style,
    pub measure: Option<M>,
    pub layout: Layout,
    pub layout_cache: Option<Cache>,
    pub is_dirty: bool,
    pub scroll_view: bool,
    pub x: i64,
    pub y: i64,
    pub bottom: i64,
    pub right: i64,
    pub offset: i64,
    pub cache_el_count: u32,
    pub cache_farest_element: i64,
}

/// The record a freshly created node carries: dirty, with a zero
/// layout, no cache and zero translation.
pub open spec fn fresh_node<M>(style: Style, measure: Option<M>, scroll_view: bool) -> NodeData<M> {
    NodeData {
        style,
        measure,
        layout: empty_layout(),
        layout_cache: None,
        is_dirty: true,
        scroll_view,
        x: 0,
        y: 0,
        bottom: 0,
        right: 0,
        offset: 0,
        cache_el_count: 0,
        cache_farest_element: 0,
    }
}

/// The same record with the dirty bit set and the cache dropped.
pub open spec fn dirtied<M>(d: NodeData<M>) -> NodeData<M> {
    NodeData { is_dirty: true, layout_cache: None, ..d }
}

impl<M> NodeData<M> {
    /// A leaf node: its content is measured by the given callback.
    pub fn new_leaf(style: Style, measure: M) -> (d: NodeData<M>)
        ensures
            d == fresh_node::<M>(style, Some(measure), false),
    {
        NodeData {
            style,
            measure: Some(measure),
            layout: Layout::new(),
            layout_cache: None,
            is_dirty: true,
            scroll_view: false,
            x: 0,
            y: 0,
            bottom: 0,
            right: 0,
            offset: 0,
            cache_el_count: 0,
            cache_farest_element: 0,
        }
    }

    /// An interior node.
    pub fn new(style: Style) -> (d: NodeData<M>)
        ensures
            d == fresh_node::<M>(style, None::<M>, false),
    {
        NodeData {
            style,
            measure: None,
            layout: Layout::new(),
            layout_cache: None,
            is_dirty: true,
            scroll_view: false,
            x: 0,
            y: 0,
            bottom: 0,
            right: 0,
            offset: 0,
            cache_el_count: 0,
            cache_farest_element: 0,
        }
    }

    /// An interior node whose children are shifted by its scroll
    /// offset after layout.
    pub fn new_scroll_view(style: Style) -> (d: NodeData<M>)
        ensures
            d == fresh_node::<M>(style, None::<M>, true),
    {
        NodeData {
            style,
            measure: None,
            layout: Layout::new(),
            layout_cache: None,
            is_dirty: true,
            scroll_view: true,
            x: 0,
            y: 0,
            bottom: 0,
            right: 0,
            offset: 0,
            cache_el_count: 0,
            cache_farest_element: 0,
        }
    }
}

/// True when every entry of `s` is below `n`.
pub open spec fn list_in_range(s: Seq<usize>, n: int) -> bool {
    forall|q: int| 0 <= q < s.len() ==> (#[trigger] s[q]) < n
}

/// The arena: node records plus child and parent adjacency, all
/// indexed by node id.
pub struct Forest<M> {
    pub nodes: Vec<NodeData<M>>,
    pub children: Vec<Vec<usize>>,
    pub parents: Vec<Vec<usize>>,
}

impl<M> Forest<M> {
    /// The number of nodes.
    pub open spec fn node_count(self) -> int {
        self.nodes@.len() as int
    }

    /// The ordered child list of slot `i`.
    pub open spec fn child_seq(self, i: int) -> Seq<usize> {
        self.children@[i]@
    }

    /// The parent list of slot `i`.
    pub open spec fn parent_seq(self, i: int) -> Seq<usize> {
        self.parents@[i]@
    }

    /// The whole parent structure, as plain sequences.
    pub open spec fn parent_map(self) -> Seq<Seq<usize>> {
        self.parents@.map_values(|v: Vec<usize>| v@)
    }

    /// True when `child` is recorded as a child of `parent`.
    pub open spec fn has_edge(self, parent: usize, child: usize) -> bool {
        &&& (parent as int) < self.node_count()
        &&& self.child_seq(parent as int).contains(child)
    }

    /// The structural invariant: the three sequences have equal
    /// length, every recorded id is in range, child and parent lists
    /// never repeat an entry, no node is its own child, child and
    /// parent lists mirror each other, and scroll offsets are
    /// non-negative.
    pub open spec fn wf(self) -> bool {
        let n = self.node_count();
        &&& self.children@.len() == n
        &&& self.parents@.len() == n
        &&& forall|i: int| 0 <= i < n ==> list_in_range(#[trigger] self.child_seq(i), n)
        &&& forall|i: int| 0 <= i < n ==> list_in_range(#[trigger] self.parent_seq(i), n)
        &&& forall|i: int| 0 <= i < n ==> (#[trigger] self.child_seq(i)).no_duplicates()
        &&& forall|i: int| 0 <= i < n ==> (#[trigger] self.parent_seq(i)).no_duplicates()
        &&& forall|i: int| 0 <= i < n ==> !(#[trigger] self.child_seq(i)).contains(i as usize)
        &&& forall|i: int, j: int|
            0 <= i < n && 0 <= j < n ==> ((#[trigger] self.child_seq(i)).contains(j as usize)
                <==> (#[trigger] self.parent_seq(j)).contains(i as usize))
        &&& forall|i: int| 0 <= i < n ==> (#[trigger] self.nodes@[i]).offset >= 0
    }

    /// An empty forest with room for `capacity` nodes.
    pub fn with_capacity(capacity: usize) -> (f: Forest<M>)
        ensures
            f.wf(),
            f.node_count() == 0,
    {
        Forest {
            nodes: Vec::with_capacity(capacity),
            children: Vec::with_capacity(capacity),
            parents: Vec::with_capacity(capacity),
        }
    }

    /// The number of nodes.
    pub fn len(&self) -> (n: usize)
        ensures
            n == self.node_count(),
    {
        self.nodes.len()
    }

    /// Whether the node must be laid out again.
    pub fn is_dirty(&self, node: usize) -> (d: bool)
        requires
            (node as int) < self.node_count(),
        ensures
            d == self.nodes@[node as int].is_dirty,
    {
        self.nodes[node].is_dirty
    }

    /// The node's last stored layout.
    pub fn layout(&self, node: usize) -> (l: Layout)
        requires
            (node as int) < self.node_count(),
        ensures
            l == self.nodes@[node as int].layout,
    {
        self.nodes[node].layout
    }

    /// The node's scroll offset.
    pub fn offset(&self, node: usize) -> (o: i64)
        requires
            (node as int) < self.node_count(),
        ensures
            o == self.nodes@[node as int].offset,
    {
        self.nodes[node].offset
    }

    /// The node's ordered child list.
    pub fn children_of(&self, node: usize) -> (c: &Vec<usize>)
        requires
            (node as int) < self.children@.len(),
        ensures
            c@ == self.child_seq(node as int),
    {
        &self.children[node]
    }

    /// The node's parent list.
    pub fn parents_of(&self, node: usize) -> (p: &Vec<usize>)
        requires
            (node as int) < self.parents@.len(),
        ensures
            p@ == self.parent_seq(node as int),
    {
        &self.parents[node]
    }

    /// Creates a measured leaf and returns its id.
    pub fn new_leaf(&mut self, style: Style, measure: M) -> (id: usize)
        requires
            old(self).wf(),
        ensures
            final(self).wf(),
            id == old(self).node_count(),
            final(self).nodes@ == old(self).nodes@.push(fresh_node::<M>(style, Some(measure), false)),
            final(self).children@.len() == old(self).node_count() + 1,
            final(self).parents@.len() == old(self).node_count() + 1,
            forall|i: int|
                0 <= i < old(self).node_count() ==> #[trigger] final(self).child_seq(i)
                    == old(self).child_seq(i) && final(self).parent_seq(i) == old(self).parent_seq(i),
            final(self).child_seq(id as int) == Seq::<usize>::empty(),
            final(self).parent_seq(id as int) == Seq::<usize>::empty(),
    {
        let id = self.attach_new(NodeData::new_leaf(style, measure), Vec::new());
        id
    }

    /// Creates an interior node over the given children and returns
    /// its id.
    pub fn new_node(&mut self, style: Style, children: Vec<usize>) -> (id: usize)
        requires
            old(self).wf(),
            list_in_range(children@, old(self).node_count()),
            children@.no_duplicates(),
        ensures
            final(self).wf(),
            id == old(self).node_count(),
            final(self).nodes@ == old(self).nodes@.push(fresh_node::<M>(style, None::<M>, false)),
            final(self).children@.len() == old(self).node_count() + 1,
            final(self).parents@.len() == old(self).node_count() + 1,
            forall|i: int|
                0 <= i < old(self).node_count() ==> #[trigger] final(self).child_seq(i) == old(
                    self,
                ).child_seq(i),
            forall|i: int|
                0 <= i < old(self).node_count() ==> #[trigger] final(self).parent_seq(i) == (
                if children@.contains(i as usize) {
                    old(self).parent_seq(i).push(id)
                } else {
                    old(self).parent_seq(i)
                }),
            final(self).child_seq(id as int) == children@,
            final(self).parent_seq(id as int) == Seq::<usize>::empty(),
    {
        let id = self.attach_new(NodeData::new(style), children);
        id
    }

    /// Creates a scroll view over the given children and returns its
    /// id.
    pub fn new_scroll_view(&mut self, style: Style, children: Vec<usize>) -> (id: usize)
        requires
            old(self).wf(),
            list_in_range(children@, old(self).node_count()),
            children@.no_duplicates(),
        ensures
            final(self).wf(),
            id == old(self).node_count(),
            final(self).nodes@ == old(self).nodes@.push(fresh_node::<M>(style, None::<M>, true)),
            final(self).children@.len() == old(self).node_count() + 1,
            final(self).parents@.len() == old(self).node_count() + 1,
            forall|i: int|
                0 <= i < old(self).node_count() ==> #[trigger] final(self).child_seq(i) == old(
                    self,
                ).child_seq(i),
            forall|i: int|
                0 <= i < old(self).node_count() ==> #[trigger] final(self).parent_seq(i) == (
                if children@.contains(i as usize) {
                    old(self).parent_seq(i).push(id)
                } else {
                    old(self).parent_seq(i)
                }),
            final(self).child_seq(id as int) == children@,
            final(self).parent_seq(id as int) == Seq::<usize>::empty(),
    {
        let id = self.attach_new(NodeData::new_scroll_view(style), children);
        id
    }

    /// Appends a node record with the given children, recording the
    /// new id as a parent of each of them.
    fn attach_new(&mut self, data: NodeData<M>, children: Vec<usize>) -> (id: usize)
        requires
            old(self).wf(),
            list_in_range(children@, old(self).node_count()),
            children@.no_duplicates(),
            data.offset >= 0,
        ensures
            final(self).wf(),
            id == old(self).node_count(),
            final(self).nodes@ == old(self).nodes@.push(data),
            final(self).children@.len() == old(self).node_count() + 1,
            final(self).parents@.len() == old(self).node_count() + 1,
            forall|i: int|
                0 <= i < old(self).node_count() ==> #[trigger] final(self).child_seq(i) == old(
                    self,
                ).child_seq(i),
            forall|i: int|
                0 <= i < old(self).node_count() ==> #[trigger] final(self).parent_seq(i) == (
                if children@.contains(i as usize) {
                    old(self).parent_seq(i).push(id)
                } else {
                    old(self).parent_seq(i)
                }),
            final(self).child_seq(id as int) == children@,
            final(self).parent_seq(id as int) == Seq::<usize>::empty(),
    {
        let id = self.nodes.len();
        let ghost pre = *self;
        let mut ci: usize = 0;
        while ci < children.len()
            invariant
                old(self).wf(),
                ci <= children@.len(),
                list_in_range(children@, old(self).node_count()),
                children@.no_duplicates(),
                id == old(self).node_count(),
                self.nodes@ == old(self).nodes@,
                self.children@ == old(self).children@,
                self.parents@.len() == old(self).node_count(),
                forall|j: int|
                    0 <= j < old(self).node_count() ==> #[trigger] self.parent_seq(j) == (
                    if children@.subrange(0, ci as int).contains(j as usize) {
                        old(self).parent_seq(j).push(id)
                    } else {
                        old(self).parent_seq(j)
                    }),
            decreases children@.len() - ci,
        {
            let ghost snap = *self;
            let c = children[ci];
            proof {
                assert(children@[ci as int] < old(self).node_count());
                assert(!children@.subrange(0, ci as int).contains(c)) by {
                    if children@.subrange(0, ci as int).contains(c) {
                        let q = choose|q: int|
                            0 <= q < ci && #[trigger] children@.subrange(0, ci as int)[q] == c;
                        assert(children@[q] == children@[ci as int]);
                    }
                };
            }
            self.parents[c].push(id);
            proof {
                assert(self.parent_seq(c as int) == snap.parent_seq(c as int).push(id));
                assert(forall|j: int|
                    0 <= j < snap.parents@.len() && j != c ==> #[trigger] self.parents@[j]
                        == snap.parents@[j]);
                assert forall|j: int|
                    0 <= j < old(self).node_count() implies #[trigger] self.parent_seq(j) == (
                    if children@.subrange(0, ci as int + 1).contains(j as usize) {
                        old(self).parent_seq(j).push(id)
                    } else {
                        old(self).parent_seq(j)
                    }) by {
                    let pfx = children@.subrange(0, ci as int + 1);
                    assert(pfx[ci as int] == c);
                    if j == c {
                        assert(pfx.contains(j as usize));
                        assert(snap.parent_seq(j) == old(self).parent_seq(j));
                        assert(self.parent_seq(j) == old(self).parent_seq(j).push(id));
                    } else {
                        assert(self.parent_seq(j) == snap.parent_seq(j));
                        assert(pfx.contains(j as usize) <==> children@.subrange(0, ci as int)
                            .contains(j as usize)) by {
                            if pfx.contains(j as usize) {
                                let q = choose|q: int|
                                    0 <= q < pfx.len() && #[trigger] pfx[q] == j as usize;
                                assert(q < ci);
                                assert(children@.subrange(0, ci as int)[q] == j as usize);
                            }
                            if children@.subrange(0, ci as int).contains(j as usize) {
                                let q = choose|q: int|
                                    0 <= q < ci && #[trigger] children@.subrange(0, ci as int)[q]
                                        == j as usize;
                                assert(pfx[q] == j as usize);
                            }
                        };
                    }
                };
            }
            ci += 1;
        }
        proof {
            assert(children@.subrange(0, children@.len() as int) =~= children@);
        }
        let ghost mid = *self;
        self.nodes.push(data);
        self.children.push(children);
        self.parents.push(Vec::new());
        proof {
            assert forall|i: int|
                0 <= i < id implies #[trigger] self.parent_seq(i) == (
            if children@.contains(i as usize) {
                pre.parent_seq(i).push(id)
            } else {
                pre.parent_seq(i)
            }) by {
                assert(self.parents@[i] == mid.parents@[i]);
                assert(mid.parent_seq(i) == (if children@.contains(i as usize) {
                    pre.parent_seq(i).push(id)
                } else {
                    pre.parent_seq(i)
                }));
            };
            assert(self.child_seq(id as int) == children@);
            lemma_attach_wf(pre, *self, id);
        }
        id
    }
}

/// The scroll offset after adding a delta: the sum, clamped to be
/// non-negative.
pub open spec fn offset_after(cur: int, delta: int) -> i64 {
    if cur + delta <= 0 {
        0
    } else {
        (cur + delta) as i64
    }
}

impl<M> Forest<M> {
    /// Empties the forest; every id becomes invalid.
    pub fn clear(&mut self)
        ensures
            final(self).wf(),
            final(self).node_count() == 0,
            final(self).children@.len() == 0,
            final(self).parents@.len() == 0,
    {
        self.nodes.clear();
        self.children.clear();
        self.parents.clear();
    }

    /// Adds `delta` to the node's scroll offset, clamping the result
    /// to be non-negative.  The dirty bit is untouched: the offset is
    /// applied after layout to simulate scrolling without a new pass.
    pub fn set_offset(&mut self, node: usize, delta: i64)
        requires
            old(self).wf(),
            (node as int) < old(self).node_count(),
            old(self).nodes@[node as int].offset + delta <= i64::MAX,
        ensures
            final(self).wf(),
            final(self).children@ == old(self).children@,
            final(self).parents@ == old(self).parents@,
            final(self).nodes@ == old(self).nodes@.update(node as int, (NodeData {
                offset: offset_after(old(self).nodes@[node as int].offset as int, delta as int),
                ..old(self).nodes@[node as int]
            })),
    {
        let cur = self.nodes[node].offset;
        let mut updated: i64 = cur + delta;
        if updated <= 0 {
            updated = 0;
        }
        self.nodes[node].offset = updated;
        proof {
            lemma_nodes_rewrite_wf(*old(self), *self);
        }
    }

    /// Stores the host-assigned translation and clip extents.
    pub fn set_pos(&mut self, node: usize, x: i64, y: i64, bottom: i64, right: i64)
        requires
            old(self).wf(),
            (node as int) < old(self).node_count(),
        ensures
            final(self).wf(),
            final(self).children@ == old(self).children@,
            final(self).parents@ == old(self).parents@,
            final(self).nodes@ == old(self).nodes@.update(node as int, (NodeData {
                x,
                y,
                bottom,
                right,
                ..old(self).nodes@[node as int]
            })),
    {
        let nd = &mut self.nodes[node];
        nd.x = x;
        nd.y = y;
        nd.bottom = bottom;
        nd.right = right;
        proof {
            lemma_nodes_rewrite_wf(*old(self), *self);
        }
    }

    /// Stores the host's scrollable-extent counters: how many elements
    /// were laid out and how far the farthest reaches.
    pub fn set_cache(&mut self, node: usize, el_count: u32, far_el: i64)
        requires
            old(self).wf(),
            (node as int) < old(self).node_count(),
        ensures
            final(self).wf(),
            final(self).children@ == old(self).children@,
            final(self).parents@ == old(self).parents@,
            final(self).nodes@ == old(self).nodes@.update(node as int, (NodeData {
                cache_el_count: el_count,
                cache_farest_element: far_el,
                ..old(self).nodes@[node as int]
            })),
    {
        let nd = &mut self.nodes[node];
        nd.cache_el_count = el_count;
        nd.cache_farest_element = far_el;
        proof {
            lemma_nodes_rewrite_wf(*old(self), *self);
        }
    }

    /// The cached layout, exactly when it may be reused: the node is
    /// clean and the cache was recorded for the requested constraints.
    pub fn cached_layout(
        &self,
        node: usize,
        node_size: Size<Number>,
        parent_size: Size<Number>,
        perform_layout: bool,
    ) -> (r: Option<Layout>)
        requires
            (node as int) < self.node_count(),
        ensures
            r == (match self.nodes@[node as int].layout_cache {
                Some(c) => if !self.nodes@[node as int].is_dirty && c.node_size == node_size
                    && c.parent_size == parent_size && c.perform_layout == perform_layout {
                    Some(c.layout)
                } else {
                    None::<Layout>
                },
                None => None::<Layout>,
            }),
    {
        if self.nodes[node].is_dirty {
            return None;
        }
        match &self.nodes[node].layout_cache {
            Some(c) => {
                if c.node_size == node_size && c.parent_size == parent_size && c.perform_layout
                    == perform_layout {
                    Some(c.layout)
                } else {
                    None
                }
            },
            None => None,
        }
    }

    /// The write-back step of a layout pass: records the node's
    /// resolved layout and cache entry and clears its dirty bit.
    pub fn store_layout(&mut self, node: usize, layout: Layout, cache: Option<Cache>)
        requires
            old(self).wf(),
            (node as int) < old(self).node_count(),
        ensures
            final(self).wf(),
            final(self).children@ == old(self).children@,
            final(self).parents@ == old(self).parents@,
            final(self).nodes@ == old(self).nodes@.update(node as int, (NodeData {
                layout,
                layout_cache: cache,
                is_dirty: false,
                ..old(self).nodes@[node as int]
            })),
    {
        let nd = &mut self.nodes[node];
        nd.layout = layout;
        nd.layout_cache = cache;
        nd.is_dirty = false;
        proof {
            lemma_nodes_rewrite_wf(*old(self), *self);
        }
    }
}

impl<M> Forest<M> {
    /// Marks the node and every transitive parent dirty and drops
    /// their cached layouts, leaving everything else untouched.
    pub fn mark_dirty(&mut self, node: usize)
        requires
            old(self).wf(),
            (node as int) < old(self).node_count(),
        ensures
            final(self).wf(),
            final(self).children@ == old(self).children@,
            final(self).parents@ == old(self).parents@,
            final(self).nodes@.len() == old(self).nodes@.len(),
            forall|j: int|
                0 <= j < old(self).node_count() ==> #[trigger] final(self).nodes@[j] == (
                if is_ancestor(old(self).parent_map(), node as int, j) {
                    dirtied(old(self).nodes@[j])
                } else {
                    old(self).nodes@[j]
                }),
    {
        let n = self.nodes.len();
        let ghost pm = self.parent_map();
        proof {
            assert(pm.len() == n);
            assert(forall|i: int| 0 <= i < n ==> #[trigger] pm[i] == old(self).parent_seq(i));
        }
        let mut visited: Vec<bool> = Vec::new();
        let mut vi: usize = 0;
        while vi < n
            invariant
                vi <= n,
                visited@.len() == vi,
                forall|q: int| 0 <= q < vi ==> !(#[trigger] visited@[q]),
            decreases n - vi,
        {
            visited.push(false);
            vi += 1;
        }
        let mut stack: Vec<usize> = Vec::new();
        visited[node] = true;
        {
            let nd = &mut self.nodes[node];
            nd.is_dirty = true;
            nd.layout_cache = None;
        }
        stack.push(node);
        proof {
            lemma_ancestor_refl(pm, node as int);
            lemma_count_bound(visited@, n as int);
            assert(stack@[0] == node);
            assert(stack@.contains(node));
            assert forall|j: int, p: int|
                0 <= j < n && visited@[j] && !stack@.contains(j as usize) && #[trigger] step_up(
                    pm,
                    j,
                    p,
                ) && p < n implies visited@[p] by {
                assert(j == node as int);
                assert(false);
            };
        }
        while stack.len() > 0
            invariant
                old(self).wf(),
                (node as int) < old(self).node_count(),
                n == old(self).node_count(),
                pm == old(self).parent_map(),
                pm.len() == n,
                forall|i: int| 0 <= i < n ==> #[trigger] pm[i] == old(self).parent_seq(i),
                self.children@ == old(self).children@,
                self.parents@ == old(self).parents@,
                self.nodes@.len() == n,
                visited@.len() == n,
                visited@[node as int],
                forall|q: int|
                    0 <= q < stack@.len() ==> (#[trigger] stack@[q]) < n && visited@[stack@[q] as int],
                forall|j: int| 0 <= j < n && #[trigger] visited@[j] ==> is_ancestor(pm, node as int, j),
                forall|j: int|
                    0 <= j < n ==> #[trigger] self.nodes@[j] == (if visited@[j] {
                        dirtied(old(self).nodes@[j])
                    } else {
                        old(self).nodes@[j]
                    }),
                forall|j: int, p: int|
                    0 <= j < n && visited@[j] && !stack@.contains(j as usize) && #[trigger] step_up(
                        pm,
                        j,
                        p,
                    ) && p < n ==> visited@[p],
                0 <= count_marked(visited@, n as int) <= n,
            decreases n as int - count_marked(visited@, n as int), stack@.len(),
        {
            let ghost stack_at_top = stack@;
            let ghost visited_at_top = visited@;
            let cur = stack.pop().unwrap();
            proof {
                assert forall|j: int|
                    0 <= j < n && visited@[j] && j != cur as int && !stack@.contains(j as usize)
                        implies !stack_at_top.contains(j as usize) by {
                    if stack_at_top.contains(j as usize) {
                        let q = choose|q: int|
                            0 <= q < stack_at_top.len() && #[trigger] stack_at_top[q] == j as usize;
                        if q < stack_at_top.len() - 1 {
                            assert(stack@[q] == j as usize);
                            assert(stack@.contains(j as usize));
                        } else {
                            assert(stack_at_top[q] == cur);
                        }
                    }
                };
            }
            let mut pi: usize = 0;
            while pi < self.parents[cur].len()
                invariant
                    old(self).wf(),
                    (node as int) < old(self).node_count(),
                    n == old(self).node_count(),
                    pm == old(self).parent_map(),
                    pm.len() == n,
                    forall|i: int| 0 <= i < n ==> #[trigger] pm[i] == old(self).parent_seq(i),
                    self.children@ == old(self).children@,
                    self.parents@ == old(self).parents@,
                    self.nodes@.len() == n,
                    visited@.len() == n,
                    visited@[node as int],
                    (cur as int) < n,
                    visited@[cur as int],
                    pi <= old(self).parent_seq(cur as int).len(),
                    forall|q: int|
                        0 <= q < pi ==> visited@[(#[trigger] old(self).parent_seq(cur as int)[q]) as int],
                    forall|q: int|
                        0 <= q < stack@.len() ==> (#[trigger] stack@[q]) < n && visited@[stack@[q] as int],
                    forall|j: int|
                        0 <= j < n && #[trigger] visited@[j] ==> is_ancestor(pm, node as int, j),
                    forall|j: int|
                        0 <= j < n ==> #[trigger] self.nodes@[j] == (if visited@[j] {
                            dirtied(old(self).nodes@[j])
                        } else {
                            old(self).nodes@[j]
                        }),
                    forall|j: int, p: int|
                        0 <= j < n && visited@[j] && j != cur as int && !stack@.contains(j as usize)
                            && #[trigger] step_up(pm, j, p) && p < n ==> visited@[p],
                    0 <= count_marked(visited@, n as int) <= n,
                    count_marked(visited@, n as int) > count_marked(visited_at_top, n as int) || (
                    visited@ == visited_at_top && stack@.len() + 1 == stack_at_top.len()),
                    stack@.len() + 1 >= stack_at_top.len(),
                    forall|q: int|
                        0 <= q < stack_at_top.len() - 1 ==> #[trigger] stack@[q] == stack_at_top[q],
                decreases old(self).parent_seq(cur as int).len() - pi,
            {
                let p = self.parents[cur][pi];
                proof {
                    assert(list_in_range(old(self).parent_seq(cur as int), n as int));
                    assert(old(self).parent_seq(cur as int)[pi as int] == p);
                }
                if !visited[p] {
                    let ghost vsnap = visited@;
                    let ghost ssnap = stack@;
                    visited[p] = true;
                    proof {
                        lemma_count_update(vsnap, p as int, n as int);
                        lemma_count_bound(visited@, n as int);
                    }
                    {
                        let nd = &mut self.nodes[p];
                        nd.is_dirty = true;
                        nd.layout_cache = None;
                    }
                    stack.push(p);
                    proof {
                        assert(step_up(pm, cur as int, p as int)) by {
                            assert(pm[cur as int] == old(self).parent_seq(cur as int));
                            assert(pm[cur as int][pi as int] == p);
                            assert(pm[cur as int].contains(p));
                        };
                        lemma_ancestor_extend(pm, node as int, cur as int, p as int);
                        assert(stack@[stack@.len() - 1] == p);
                        assert(stack@.contains(p));
                        assert forall|j: int, pp: int|
                            0 <= j < n && visited@[j] && j != cur as int && !stack@.contains(
                                j as usize,
                            ) && #[trigger] step_up(pm, j, pp) && pp < n implies visited@[pp] by {
                            assert(j != p as int);
                            assert(vsnap[j]);
                            assert(!ssnap.contains(j as usize)) by {
                                if ssnap.contains(j as usize) {
                                    let q = choose|q: int|
                                        0 <= q < ssnap.len() && #[trigger] ssnap[q] == j as usize;
                                    assert(stack@[q] == j as usize);
                                }
                            };
                            assert(vsnap[pp]);
                        };
                    }
                }
                pi += 1;
            }
            proof {
                assert forall|p: int| #[trigger] step_up(pm, cur as int, p) && p < n implies visited@[p] by {
                    assert(pm[cur as int].contains(p as usize));
                    let q = choose|q: int|
                        0 <= q < pm[cur as int].len() && #[trigger] pm[cur as int][q] == p as usize;
                    assert(old(self).parent_seq(cur as int)[q] == p as usize);
                };
                assert forall|j: int, p: int|
                    0 <= j < n && visited@[j] && !stack@.contains(j as usize) && #[trigger] step_up(
                        pm,
                        j,
                        p,
                    ) && p < n implies visited@[p] by {
                    if j != cur as int {
                        assert(!stack_at_top.contains(j as usize)) by {
                            if stack_at_top.contains(j as usize) {
                                let q = choose|q: int|
                                    0 <= q < stack_at_top.len() && #[trigger] stack_at_top[q]
                                        == j as usize;
                                if q < stack_at_top.len() - 1 {
                                    assert(stack@[q] == j as usize);
                                    assert(stack@.contains(j as usize));
                                } else {
                                    assert(stack_at_top[q] == cur);
                                }
                            }
                        };
                    }
                };
            }
        }
        proof {
            assert forall|j: int| 0 <= j < n && is_ancestor(pm, node as int, j) implies visited@[j] by {
                let fuel = choose|fuel: nat| reaches_up(pm, node as int, j, fuel);
                assert forall|a: int, q: int|
                    0 <= a < pm.len() && 0 <= q < pm[a].len() implies (#[trigger] pm[a][q] as int)
                        < pm.len() by {
                    assert(pm[a] == old(self).parent_seq(a));
                    assert(list_in_range(old(self).parent_seq(a), n as int));
                };
                lemma_reaches_closed(pm, visited@, node as int, j, fuel);
            };
            assert forall|j: int|
                0 <= j < old(self).node_count() implies #[trigger] self.nodes@[j] == (
            if is_ancestor(old(self).parent_map(), node as int, j) {
                dirtied(old(self).nodes@[j])
            } else {
                old(self).nodes@[j]
            }) by {
                if is_ancestor(pm, node as int, j) {
                    assert(visited@[j]);
                }
            };
            lemma_nodes_rewrite_wf(*old(self), *self);
        }
    }
}

/// The entries of `s` other than `target`, in order.
pub open spec fn without(s: Seq<usize>, target: usize) -> Seq<usize>
    decreases s.len(),
{
    if s.len() == 0 {
        Seq::empty()
    } else if s.last() == target {
        without(s.drop_last(), target)
    } else {
        without(s.drop_last(), target).push(s.last())
    }
}

/// Appending an entry extends membership by exactly that entry.
proof fn lemma_push_contains(s: Seq<usize>, v: usize, x: usize)
    ensures
        s.push(v).contains(x) <==> (s.contains(x) || x == v),
{
    if s.contains(x) {
        let q = choose|q: int| 0 <= q < s.len() && #[trigger] s[q] == x;
        assert(s.push(v)[q] == x);
    }
    assert(s.push(v)[s.len() as int] == v);
    if s.push(v).contains(x) {
        let q = choose|q: int| 0 <= q < s.push(v).len() && #[trigger] s.push(v)[q] == x;
        if q < s.len() {
            assert(s[q] == x);
        }
    }
}

/// Appending a new entry keeps a list free of duplicates.
proof fn lemma_push_no_dup(s: Seq<usize>, v: usize)
    requires
        s.no_duplicates(),
        !s.contains(v),
    ensures
        s.push(v).no_duplicates(),
{
    let t = s.push(v);
    assert forall|a: int, b: int|
        0 <= a < t.len() && 0 <= b < t.len() && a != b implies t[a] != t[b] by {
        if a < s.len() && b < s.len() {
            assert(s[a] != s[b]);
        } else if a < s.len() {
            assert(t[b] == v);
            if t[a] == v {
                assert(s.contains(v));
            }
        } else {
            assert(t[a] == v);
            if t[b] == v {
                assert(s.contains(v));
            }
        }
    };
}

/// Removing the entry at one index of a duplicate-free list removes
/// exactly that entry.
proof fn lemma_remove_props(s: Seq<usize>, i: int)
    requires
        0 <= i < s.len(),
        s.no_duplicates(),
    ensures
        s.remove(i).no_duplicates(),
        forall|x: usize| s.remove(i).contains(x) <==> (s.contains(x) && x != s[i]),
{
    let r = s.remove(i);
    assert forall|a: int, b: int|
        0 <= a < r.len() && 0 <= b < r.len() && a != b implies r[a] != r[b] by {
        let sa = if a < i { a } else { a + 1 };
        let sb = if b < i { b } else { b + 1 };
        assert(r[a] == s[sa]);
        assert(r[b] == s[sb]);
        assert(s[sa] != s[sb]);
    };
    assert forall|x: usize| r.contains(x) <==> (s.contains(x) && x != s[i]) by {
        if r.contains(x) {
            let q = choose|q: int| 0 <= q < r.len() && #[trigger] r[q] == x;
            let sq = if q < i { q } else { q + 1 };
            assert(s[sq] == x);
            assert(s.contains(x));
            assert(s[sq] != s[i]);
        }
        if s.contains(x) && x != s[i] {
            let q = choose|q: int| 0 <= q < s.len() && #[trigger] s[q] == x;
            if q < i {
                assert(r[q] == x);
            } else {
                assert(q > i);
                assert(r[q - 1] == x);
            }
            assert(r.contains(x));
        }
    };
}

/// What remains after dropping `target` contains exactly the other
/// entries, without introducing duplicates.
proof fn lemma_without_props(s: Seq<usize>, target: usize)
    requires
        s.no_duplicates(),
    ensures
        without(s, target).no_duplicates(),
        forall|x: usize| without(s, target).contains(x) <==> (s.contains(x) && x != target),
    decreases s.len(),
{
    if s.len() == 0 {
    } else {
        let d = s.drop_last();
        assert(d.no_duplicates()) by {
            assert forall|a: int, b: int|
                0 <= a < d.len() && 0 <= b < d.len() && a != b implies d[a] != d[b] by {
                assert(s[a] != s[b]);
            };
        };
        lemma_without_props(d, target);
        assert forall|x: usize| d.contains(x) <==> (s.contains(x) && x != s.last()) by {
            if d.contains(x) {
                let q = choose|q: int| 0 <= q < d.len() && #[trigger] d[q] == x;
                assert(s[q] == x);
                assert(s[q] != s[s.len() - 1]);
            }
            if s.contains(x) && x != s.last() {
                let q = choose|q: int| 0 <= q < s.len() && #[trigger] s[q] == x;
                assert(q < s.len() - 1);
                assert(d[q] == x);
            }
        };
        if s.last() == target {
        } else {
            assert(!d.contains(s.last())) by {
                if d.contains(s.last()) {
                    let q = choose|q: int| 0 <= q < d.len() && #[trigger] d[q] == s.last();
                    assert(s[q] == s[s.len() - 1]);
                }
            };
            assert(!without(d, target).contains(s.last()));
            lemma_push_no_dup(without(d, target), s.last());
            assert forall|x: usize|
                without(s, target).contains(x) <==> (s.contains(x) && x != target) by {
                lemma_push_contains(without(d, target), s.last(), x);
                assert(s.contains(s.last()));
            };
        }
    }
}

/// Dropping an entry that is absent changes nothing.
proof fn lemma_without_absent(s: Seq<usize>, target: usize)
    requires
        !s.contains(target),
    ensures
        without(s, target) == s,
    decreases s.len(),
{
    if s.len() > 0 {
        let d = s.drop_last();
        assert(!d.contains(target)) by {
            if d.contains(target) {
                let q = choose|q: int| 0 <= q < d.len() && #[trigger] d[q] == target;
                assert(s[q] == target);
            }
        };
        lemma_without_absent(d, target);
        assert(s[s.len() - 1] != target);
        assert(without(s, target) == d.push(s.last()));
        assert(d.push(s.last()) =~= s);
    }
}

/// Rewrites `list` to its entries other than `target`, in order.
fn retain_not(list: &mut Vec<usize>, target: usize)
    ensures
        final(list)@ == without(old(list)@, target),
{
    let mut out: Vec<usize> = Vec::new();
    let mut i: usize = 0;
    while i < list.len()
        invariant
            i <= list@.len(),
            list@ == old(list)@,
            out@ == without(list@.subrange(0, i as int), target),
        decreases list@.len() - i,
    {
        let v = list[i];
        proof {
            assert(list@.subrange(0, i as int + 1).drop_last() =~= list@.subrange(0, i as int));
            assert(list@.subrange(0, i as int + 1).last() == v);
        }
        if v != target {
            out.push(v);
        }
        i += 1;
    }
    proof {
        assert(list@.subrange(0, list@.len() as int) =~= list@);
    }
    *list = out;
}

/// How many of the first `upto` flags of `s` are set.
spec fn count_marked(s: Seq<bool>, upto: int) -> int
    decreases upto,
{
    if upto <= 0 {
        0
    } else {
        count_marked(s, upto - 1) + if s[upto - 1] {
            1int
        } else {
            0int
        }
    }
}

/// The marked count lies between zero and `upto`.
proof fn lemma_count_bound(s: Seq<bool>, upto: int)
    ensures
        0 <= count_marked(s, upto),
        upto >= 0 ==> count_marked(s, upto) <= upto,
    decreases upto,
{
    if upto > 0 {
        lemma_count_bound(s, upto - 1);
    }
}

/// Setting one unset flag raises the marked count by one when the
/// flag lies below `upto`.
proof fn lemma_count_update(s: Seq<bool>, p: int, upto: int)
    requires
        0 <= p < s.len(),
        upto <= s.len(),
        !s[p],
    ensures
        count_marked(s.update(p, true), upto) == count_marked(s, upto) + if p < upto {
            1int
        } else {
            0int
        },
    decreases upto,
{
    if upto > 0 {
        lemma_count_update(s, p, upto - 1);
    }
}

/// A change that only rewrites node records, keeping every offset
/// non-negative and the adjacency untouched, preserves well-formedness.
proof fn lemma_nodes_rewrite_wf<M>(pre: Forest<M>, post: Forest<M>)
    requires
        pre.wf(),
        post.children@ == pre.children@,
        post.parents@ == pre.parents@,
        post.nodes@.len() == pre.nodes@.len(),
        forall|i: int|
            0 <= i < pre.node_count() ==> (#[trigger] post.nodes@[i]).offset
                == pre.nodes@[i].offset || post.nodes@[i].offset >= 0,
    ensures
        post.wf(),
{
    assert forall|i: int| 0 <= i < post.node_count() implies (#[trigger] post.nodes@[i]).offset
        >= 0 by {
        assert(pre.nodes@[i].offset >= 0);
    };
    assert forall|i: int| 0 <= i < post.node_count() implies list_in_range(
        #[trigger] post.child_seq(i),
        post.node_count(),
    ) && post.child_seq(i).no_duplicates() && !post.child_seq(i).contains(i as usize) by {
        assert(post.child_seq(i) == pre.child_seq(i));
        assert(list_in_range(pre.child_seq(i), pre.node_count()));
    };
    assert forall|i: int| 0 <= i < post.node_count() implies list_in_range(
        #[trigger] post.parent_seq(i),
        post.node_count(),
    ) && post.parent_seq(i).no_duplicates() by {
        assert(post.parent_seq(i) == pre.parent_seq(i));
        assert(list_in_range(pre.parent_seq(i), pre.node_count()));
    };
    assert forall|i: int, j: int|
        0 <= i < post.node_count() && 0 <= j < post.node_count() implies ((
    #[trigger] post.child_seq(i)).contains(j as usize) <==> (#[trigger] post.parent_seq(
        j,
    )).contains(i as usize)) by {
        assert(post.child_seq(i) == pre.child_seq(i));
        assert(post.parent_seq(j) == pre.parent_seq(j));
    };
}

/// After appending a node over existing children and recording it as
/// their parent, the forest is well formed again.
proof fn lemma_attach_wf<M>(pre: Forest<M>, post: Forest<M>, id: usize)
    requires
        pre.wf(),
        id == pre.node_count(),
        post.node_count() == id + 1,
        post.children@.len() == id + 1,
        post.parents@.len() == id + 1,
        post.child_seq(id as int).no_duplicates(),
        list_in_range(post.child_seq(id as int), id as int),
        post.parent_seq(id as int).len() == 0,
        post.nodes@[id as int].offset >= 0,
        forall|i: int| 0 <= i < id ==> #[trigger] post.child_seq(i) == pre.child_seq(i),
        forall|i: int|
            0 <= i < id ==> #[trigger] post.parent_seq(i) == (
            if post.child_seq(id as int).contains(i as usize) {
                pre.parent_seq(i).push(id)
            } else {
                pre.parent_seq(i)
            }),
        forall|i: int| 0 <= i < id ==> post.nodes@[i] == pre.nodes@[i],
    ensures
        post.wf(),
{
    let n = post.node_count();
    let kids = post.child_seq(id as int);
    assert forall|i: int| 0 <= i < n implies list_in_range(#[trigger] post.child_seq(i), n) by {
        if i < id {
            assert(list_in_range(pre.child_seq(i), id as int));
            assert forall|q: int|
                0 <= q < post.child_seq(i).len() implies (#[trigger] post.child_seq(i)[q]) < n by {
                assert(pre.child_seq(i)[q] < id);
            };
        } else {
            assert forall|q: int|
                0 <= q < post.child_seq(i).len() implies (#[trigger] post.child_seq(i)[q]) < n by {
                assert(kids[q] < id);
            };
        }
    };
    assert forall|i: int| 0 <= i < n implies list_in_range(#[trigger] post.parent_seq(i), n) by {
        if i < id {
            assert(list_in_range(pre.parent_seq(i), id as int));
            if kids.contains(i as usize) {
                assert(post.parent_seq(i) == pre.parent_seq(i).push(id));
                assert forall|q: int|
                    0 <= q < post.parent_seq(i).len() implies (#[trigger] post.parent_seq(i)[q])
                        < n by {
                    if q < pre.parent_seq(i).len() {
                        assert(pre.parent_seq(i)[q] < id);
                    }
                };
            } else {
                assert forall|q: int|
                    0 <= q < post.parent_seq(i).len() implies (#[trigger] post.parent_seq(i)[q])
                        < n by {
                    assert(pre.parent_seq(i)[q] < id);
                };
            }
        }
    };
    assert forall|i: int| 0 <= i < n implies (#[trigger] post.child_seq(i)).no_duplicates() by {
        if i < id {
            assert(pre.child_seq(i).no_duplicates());
        }
    };
    assert forall|i: int| 0 <= i < n implies (#[trigger] post.parent_seq(i)).no_duplicates() by {
        if i < id {
            if kids.contains(i as usize) {
                let s = pre.parent_seq(i);
                assert(!s.contains(id)) by {
                    if s.contains(id) {
                        let q = choose|q: int| 0 <= q < s.len() && #[trigger] s[q] == id;
                        assert(s[q] < id);
                    }
                };
                let t = post.parent_seq(i);
                assert(t == s.push(id));
                assert forall|a: int, b: int|
                    0 <= a < t.len() && 0 <= b < t.len() && a != b implies t[a] != t[b] by {
                    if a < s.len() && b < s.len() {
                        assert(s.no_duplicates());
                        assert(s[a] != s[b]);
                    } else if a < s.len() {
                        assert(t[b] == id);
                        assert(s[a] < id);
                    } else {
                        assert(t[a] == id);
                        assert(s[b] < id);
                    }
                };
            } else {
                assert(pre.parent_seq(i).no_duplicates());
            }
        }
    };
    assert forall|i: int| 0 <= i < n implies !(#[trigger] post.child_seq(i)).contains(i as usize) by {
        if i < id {
            assert(!pre.child_seq(i).contains(i as usize));
        } else {
            if kids.contains(i as usize) {
                let q = choose|q: int| 0 <= q < kids.len() && #[trigger] kids[q] == i as usize;
                assert(kids[q] < id);
            }
        }
    };
    assert forall|i: int, j: int|
        0 <= i < n && 0 <= j < n implies ((#[trigger] post.child_seq(i)).contains(j as usize)
        <==> (#[trigger] post.parent_seq(j)).contains(i as usize)) by {
        if i < id && j < id {
            if kids.contains(j as usize) {
                assert(post.parent_seq(j) == pre.parent_seq(j).push(id));
                assert(post.parent_seq(j).contains(i as usize) <==> pre.parent_seq(j).contains(
                    i as usize,
                )) by {
                    let s = pre.parent_seq(j);
                    let t = s.push(id);
                    if s.contains(i as usize) {
                        let q = choose|q: int| 0 <= q < s.len() && #[trigger] s[q] == i as usize;
                        assert(t[q] == i as usize);
                    }
                    if t.contains(i as usize) {
                        let q = choose|q: int| 0 <= q < t.len() && #[trigger] t[q] == i as usize;
                        if q < s.len() {
                            assert(s[q] == i as usize);
                        } else {
                            assert(t[q] == id);
                        }
                    }
                };
            }
        } else if i == id && j < id {
            if kids.contains(j as usize) {
                assert(post.parent_seq(j) == pre.parent_seq(j).push(id));
                let t = pre.parent_seq(j).push(id);
                assert(t[t.len() - 1] == id);
                assert(t.contains(i as usize));
            } else {
                assert(!post.parent_seq(j).contains(id)) by {
                    if pre.parent_seq(j).contains(id) {
                        let q = choose|q: int|
                            0 <= q < pre.parent_seq(j).len() && #[trigger] pre.parent_seq(j)[q]
                                == id;
                        assert(pre.parent_seq(j)[q] < id);
                    }
                };
            }
        } else if j == id {
            assert(!post.parent_seq(j).contains(i as usize));
            if i < id {
                assert(!post.child_seq(i).contains(j as usize)) by {
                    if pre.child_seq(i).contains(id) {
                        let q = choose|q: int|
                            0 <= q < pre.child_seq(i).len() && #[trigger] pre.child_seq(i)[q] == id;
                        assert(pre.child_seq(i)[q] < id);
                    }
                };
            } else {
                if kids.contains(j as usize) {
                    let q = choose|q: int| 0 <= q < kids.len() && #[trigger] kids[q] == j as usize;
                    assert(kids[q] < id);
                }
            }
        }
    };
}

impl<M> Forest<M> {
    /// Replaces the node's style and marks it and its ancestors dirty.
    pub fn set_style(&mut self, node: usize, style: Style)
        requires
            old(self).wf(),
            (node as int) < old(self).node_count(),
        ensures
            final(self).wf(),
            final(self).children@ == old(self).children@,
            final(self).parents@ == old(self).parents@,
            final(self).nodes@.len() == old(self).nodes@.len(),
            forall|j: int|
                0 <= j < old(self).node_count() ==> #[trigger] final(self).nodes@[j] == (
                if j == node as int {
                    dirtied((NodeData { style, ..old(self).nodes@[j] }))
                } else if is_ancestor(old(self).parent_map(), node as int, j) {
                    dirtied(old(self).nodes@[j])
                } else {
                    old(self).nodes@[j]
                }),
    {
        self.nodes[node].style = style;
        proof {
            lemma_nodes_rewrite_wf(*old(self), *self);
        }
        let ghost mid = *self;
        self.mark_dirty(node);
        proof {
            lemma_ancestor_refl(mid.parent_map(), node as int);
            assert(mid.parent_map() == old(self).parent_map());
            assert forall|j: int|
                0 <= j < old(self).node_count() implies #[trigger] self.nodes@[j] == (
            if j == node as int {
                dirtied((NodeData { style, ..old(self).nodes@[j] }))
            } else if is_ancestor(old(self).parent_map(), node as int, j) {
                dirtied(old(self).nodes@[j])
            } else {
                old(self).nodes@[j]
            }) by {
                assert(mid.nodes@[j] == (if j == node as int {
                    NodeData { style, ..old(self).nodes@[j] }
                } else {
                    old(self).nodes@[j]
                }));
            };
        }
    }

    /// Appends `child` to `node`'s children, records the matching back
    /// edge, and marks `node` and its ancestors dirty.
    pub fn add_child(&mut self, node: usize, child: usize)
        requires
            old(self).wf(),
            (node as int) < old(self).node_count(),
            (child as int) < old(self).node_count(),
            node != child,
            !old(self).has_edge(node, child),
        ensures
            final(self).wf(),
            final(self).node_count() == old(self).node_count(),
            final(self).child_seq(node as int) == old(self).child_seq(node as int).push(child),
            final(self).parent_seq(child as int) == old(self).parent_seq(child as int).push(node),
            forall|i: int|
                0 <= i < old(self).node_count() && i != node as int ==> #[trigger] final(self).child_seq(i) == old(self).child_seq(i),
            forall|i: int|
                0 <= i < old(self).node_count() && i != child as int ==> #[trigger] final(self).parent_seq(i) == old(self).parent_seq(i),
            forall|j: int|
                0 <= j < old(self).node_count() ==> #[trigger] final(self).nodes@[j] == (
                if is_ancestor(final(self).parent_map(), node as int, j) {
                    dirtied(old(self).nodes@[j])
                } else {
                    old(self).nodes@[j]
                }),
    {
        self.parents[child].push(node);
        self.children[node].push(child);
        proof {
            lemma_add_edge_wf(*old(self), *self, node, child);
        }
        let ghost mid = *self;
        self.mark_dirty(node);
        proof {
            assert(mid.parent_map() == self.parent_map());
            assert(mid.nodes@ == old(self).nodes@);
        }
    }

    /// Detaches the child at the given index of `node`'s child list,
    /// removes the matching back edge, marks `node` and its ancestors
    /// dirty, and returns the detached child's id.
    pub fn remove_child_at_index(&mut self, node: usize, index: usize) -> (child: usize)
        requires
            old(self).wf(),
            (node as int) < old(self).node_count(),
            (index as int) < old(self).child_seq(node as int).len(),
        ensures
            final(self).wf(),
            final(self).node_count() == old(self).node_count(),
            child == old(self).child_seq(node as int)[index as int],
            (child as int) < old(self).node_count(),
            final(self).child_seq(node as int) == old(self).child_seq(node as int).remove(
                index as int,
            ),
            final(self).parent_seq(child as int) == without(
                old(self).parent_seq(child as int),
                node,
            ),
            forall|i: int|
                0 <= i < old(self).node_count() && i != node as int ==> #[trigger] final(self).child_seq(i) == old(self).child_seq(i),
            forall|i: int|
                0 <= i < old(self).node_count() && i != child as int ==> #[trigger] final(self).parent_seq(i) == old(self).parent_seq(i),
            forall|j: int|
                0 <= j < old(self).node_count() ==> #[trigger] final(self).nodes@[j] == (
                if is_ancestor(final(self).parent_map(), node as int, j) {
                    dirtied(old(self).nodes@[j])
                } else {
                    old(self).nodes@[j]
                }),
    {
        let child = self.children[node].remove(index);
        proof {
            assert(list_in_range(old(self).child_seq(node as int), old(self).node_count()));
            assert(old(self).child_seq(node as int)[index as int] == child);
        }
        retain_not(&mut self.parents[child], node);
        proof {
            lemma_remove_edge_wf(*old(self), *self, node, child, index as int);
        }
        let ghost mid = *self;
        self.mark_dirty(node);
        proof {
            assert(mid.parent_map() == self.parent_map());
            assert(mid.nodes@ == old(self).nodes@);
        }
        child
    }

    /// Detaches the given child of `node`, wherever it stands in the
    /// child list, and returns its id.
    pub fn remove_child(&mut self, node: usize, child: usize) -> (removed: usize)
        requires
            old(self).wf(),
            (node as int) < old(self).node_count(),
            old(self).has_edge(node, child),
        ensures
            final(self).wf(),
            final(self).node_count() == old(self).node_count(),
            removed == child,
            final(self).child_seq(node as int) == old(self).child_seq(node as int).remove(
                old(self).child_seq(node as int).index_of(child),
            ),
            final(self).parent_seq(child as int) == without(
                old(self).parent_seq(child as int),
                node,
            ),
            forall|i: int|
                0 <= i < old(self).node_count() && i != node as int ==> #[trigger] final(self).child_seq(i) == old(self).child_seq(i),
            forall|i: int|
                0 <= i < old(self).node_count() && i != child as int ==> #[trigger] final(self).parent_seq(i) == old(self).parent_seq(i),
            forall|j: int|
                0 <= j < old(self).node_count() ==> #[trigger] final(self).nodes@[j] == (
                if is_ancestor(final(self).parent_map(), node as int, j) {
                    dirtied(old(self).nodes@[j])
                } else {
                    old(self).nodes@[j]
                }),
    {
        let ghost kids = old(self).child_seq(node as int);
        let limit = self.children[node].len();
        proof {
            let q = choose|q: int| 0 <= q < kids.len() && #[trigger] kids[q] == child;
        }
        let mut index: usize = 0;
        loop
            invariant_except_break
                self == old(self),
                old(self).wf(),
                (node as int) < old(self).node_count(),
                kids == old(self).child_seq(node as int),
                kids.contains(child),
                limit as int == kids.len(),
                (index as int) < kids.len(),
                forall|q: int| 0 <= q < index ==> #[trigger] kids[q] != child,
            ensures
                self == old(self),
                (index as int) < kids.len(),
                kids[index as int] == child,
            decreases kids.len() - index,
        {
            if self.children[node][index] == child {
                break;
            }
            index += 1;
            proof {
                if index as int == kids.len() {
                    let q = choose|q: int| 0 <= q < kids.len() && #[trigger] kids[q] == child;
                    assert(kids[q] != child);
                    assert(false);
                }
            }
        }
        proof {
            assert(kids.index_of(child) == index as int) by {
                let io = kids.index_of(child);
                assert(kids[io] == child && 0 <= io < kids.len());
                assert(kids.no_duplicates());
                if io != index as int {
                    assert(kids[io] != kids[index as int]);
                }
            };
        }
        let removed = self.remove_child_at_index(node, index);
        removed
    }
}

/// Adding a fresh edge between two distinct live nodes, recorded on
/// both sides, preserves well-formedness.
proof fn lemma_add_edge_wf<M>(pre: Forest<M>, post: Forest<M>, node: usize, child: usize)
    requires
        pre.wf(),
        (node as int) < pre.node_count(),
        (child as int) < pre.node_count(),
        node != child,
        !pre.child_seq(node as int).contains(child),
        post.nodes@ == pre.nodes@,
        post.children@.len() == pre.node_count(),
        post.parents@.len() == pre.node_count(),
        post.child_seq(node as int) == pre.child_seq(node as int).push(child),
        post.parent_seq(child as int) == pre.parent_seq(child as int).push(node),
        forall|i: int|
            0 <= i < pre.node_count() && i != node as int ==> #[trigger] post.child_seq(i)
                == pre.child_seq(i),
        forall|i: int|
            0 <= i < pre.node_count() && i != child as int ==> #[trigger] post.parent_seq(i)
                == pre.parent_seq(i),
    ensures
        post.wf(),
{
    let n = pre.node_count();
    assert(pre.nodes@.len() <= usize::MAX) by {
        assert(pre.nodes.len() == pre.nodes@.len());
    };
    assert(!pre.parent_seq(child as int).contains(node));
    assert forall|i: int| 0 <= i < n implies list_in_range(#[trigger] post.child_seq(i), n)
        && post.child_seq(i).no_duplicates() && !post.child_seq(i).contains(i as usize) by {
        assert(list_in_range(pre.child_seq(i), n));
        if i == node as int {
            lemma_push_no_dup(pre.child_seq(i), child);
            lemma_push_contains(pre.child_seq(i), child, i as usize);
            assert forall|q: int|
                0 <= q < post.child_seq(i).len() implies (#[trigger] post.child_seq(i)[q]) < n by {
                if q < pre.child_seq(i).len() {
                    assert(pre.child_seq(i)[q] < n);
                } else {
                    assert(post.child_seq(i)[q] == child);
                }
            };
        }
    };
    assert forall|i: int| 0 <= i < n implies list_in_range(#[trigger] post.parent_seq(i), n)
        && post.parent_seq(i).no_duplicates() by {
        assert(list_in_range(pre.parent_seq(i), n));
        if i == child as int {
            lemma_push_no_dup(pre.parent_seq(i), node);
            assert forall|q: int|
                0 <= q < post.parent_seq(i).len() implies (#[trigger] post.parent_seq(i)[q]) < n by {
                if q < pre.parent_seq(i).len() {
                    assert(pre.parent_seq(i)[q] < n);
                } else {
                    assert(post.parent_seq(i)[q] == node);
                }
            };
        }
    };
    assert forall|i: int, j: int|
        0 <= i < n && 0 <= j < n implies ((#[trigger] post.child_seq(i)).contains(j as usize)
        <==> (#[trigger] post.parent_seq(j)).contains(i as usize)) by {
        assert(pre.child_seq(i).contains(j as usize) <==> pre.parent_seq(j).contains(i as usize));
        if i == node as int {
            lemma_push_contains(pre.child_seq(i), child, j as usize);
            assert(post.child_seq(i) == pre.child_seq(i).push(child));
            assert(post.child_seq(i).contains(j as usize) <==> (pre.child_seq(i).contains(
                j as usize,
            ) || j == child as int));
        } else {
            assert(post.child_seq(i) == pre.child_seq(i));
        }
        if j == child as int {
            lemma_push_contains(pre.parent_seq(j), node, i as usize);
            assert(post.parent_seq(j) == pre.parent_seq(j).push(node));
            assert(post.parent_seq(j).contains(i as usize) <==> (pre.parent_seq(j).contains(
                i as usize,
            ) || i == node as int));
        } else {
            assert(post.parent_seq(j) == pre.parent_seq(j));
        }
    };
    assert forall|i: int| 0 <= i < n implies (#[trigger] post.nodes@[i]).offset >= 0 by {
        assert(pre.nodes@[i].offset >= 0);
    };
}

/// Removing an edge from both of its sides preserves well-formedness.
proof fn lemma_remove_edge_wf<M>(
    pre: Forest<M>,
    post: Forest<M>,
    node: usize,
    child: usize,
    idx: int,
)
    requires
        pre.wf(),
        (node as int) < pre.node_count(),
        0 <= idx < pre.child_seq(node as int).len(),
        child == pre.child_seq(node as int)[idx],
        post.nodes@ == pre.nodes@,
        post.children@.len() == pre.node_count(),
        post.parents@.len() == pre.node_count(),
        post.child_seq(node as int) == pre.child_seq(node as int).remove(idx),
        post.parent_seq(child as int) == without(pre.parent_seq(child as int), node),
        forall|i: int|
            0 <= i < pre.node_count() && i != node as int ==> #[trigger] post.child_seq(i)
                == pre.child_seq(i),
        forall|i: int|
            0 <= i < pre.node_count() && i != child as int ==> #[trigger] post.parent_seq(i)
                == pre.parent_seq(i),
    ensures
        post.wf(),
{
    let n = pre.node_count();
    assert(pre.nodes@.len() <= usize::MAX) by {
        assert(pre.nodes.len() == pre.nodes@.len());
    };
    assert(list_in_range(pre.child_seq(node as int), n));
    assert((child as int) < n);
    assert(child != node) by {
        assert(!pre.child_seq(node as int).contains(node));
        if child == node {
            assert(pre.child_seq(node as int)[idx] == node);
            assert(pre.child_seq(node as int).contains(node));
        }
    };
    lemma_remove_props(pre.child_seq(node as int), idx);
    lemma_without_props(pre.parent_seq(child as int), node);
    assert forall|i: int| 0 <= i < n implies list_in_range(#[trigger] post.child_seq(i), n)
        && post.child_seq(i).no_duplicates() && !post.child_seq(i).contains(i as usize) by {
        assert(list_in_range(pre.child_seq(i), n));
        if i == node as int {
            assert forall|q: int|
                0 <= q < post.child_seq(i).len() implies (#[trigger] post.child_seq(i)[q]) < n by {
                assert(post.child_seq(i).contains(post.child_seq(i)[q]));
                assert(pre.child_seq(i).contains(post.child_seq(i)[q]));
                let w = choose|w: int|
                    0 <= w < pre.child_seq(i).len() && #[trigger] pre.child_seq(i)[w]
                        == post.child_seq(i)[q];
                assert(pre.child_seq(i)[w] < n);
            };
            if post.child_seq(i).contains(i as usize) {
                assert(pre.child_seq(i).contains(i as usize));
            }
        }
    };
    assert forall|i: int| 0 <= i < n implies list_in_range(#[trigger] post.parent_seq(i), n)
        && post.parent_seq(i).no_duplicates() by {
        assert(list_in_range(pre.parent_seq(i), n));
        if i == child as int {
            assert forall|q: int|
                0 <= q < post.parent_seq(i).len() implies (#[trigger] post.parent_seq(i)[q]) < n by {
                assert(post.parent_seq(i).contains(post.parent_seq(i)[q]));
                assert(pre.parent_seq(i).contains(post.parent_seq(i)[q]));
                let w = choose|w: int|
                    0 <= w < pre.parent_seq(i).len() && #[trigger] pre.parent_seq(i)[w]
                        == post.parent_seq(i)[q];
                assert(pre.parent_seq(i)[w] < n);
            };
        }
    };
    assert forall|i: int, j: int|
        0 <= i < n && 0 <= j < n implies ((#[trigger] post.child_seq(i)).contains(j as usize)
        <==> (#[trigger] post.parent_seq(j)).contains(i as usize)) by {
        assert(pre.child_seq(i).contains(j as usize) <==> pre.parent_seq(j).contains(i as usize));
        if i == node as int {
            assert(post.child_seq(i) == pre.child_seq(node as int).remove(idx));
            assert(post.child_seq(i).contains(j as usize) <==> (pre.child_seq(i).contains(
                j as usize,
            ) && j as usize != child));
        }
        if j == child as int {
            assert(post.parent_seq(j) == without(pre.parent_seq(child as int), node));
            assert(post.parent_seq(j).contains(i as usize) <==> (pre.parent_seq(j).contains(
                i as usize,
            ) && i as usize != node));
        }
    };
    assert forall|i: int| 0 <= i < n implies (#[trigger] post.nodes@[i]).offset >= 0 by {
        assert(pre.nodes@[i].offset >= 0);
    };
}


/// Replacing slot `i` by the last entry and dropping the last entry
/// of a duplicate-free list removes exactly the entry at `i`.
proof fn lemma_swap_remove_step(s: Seq<usize>, i: int)
    requires
        0 <= i < s.len(),
        s.no_duplicates(),
    ensures
        s.update(i, s.last()).drop_last().no_duplicates(),
        forall|x: usize|
            #[trigger] s.update(i, s.last()).drop_last().contains(x) <==> (s.contains(x) && x
                != s[i]),
{
    let t = s.update(i, s.last()).drop_last();
    assert forall|a: int, b: int|
        0 <= a < t.len() && 0 <= b < t.len() && a != b implies t[a] != t[b] by {
        let sa = if a == i { s.len() - 1 } else { a };
        let sb = if b == i { s.len() - 1 } else { b };
        assert(t[a] == s[sa]);
        assert(t[b] == s[sb]);
        assert(s[sa] != s[sb]);
    };
    assert forall|x: usize| #[trigger] t.contains(x) <==> (s.contains(x) && x != s[i]) by {
        if t.contains(x) {
            let q = choose|q: int| 0 <= q < t.len() && #[trigger] t[q] == x;
            let sq = if q == i { s.len() - 1 } else { q };
            assert(s[sq] == x);
            assert(s.contains(x));
            assert(s[sq] != s[i]);
        }
        if s.contains(x) && x != s[i] {
            let q = choose|q: int| 0 <= q < s.len() && #[trigger] s[q] == x;
            if q == s.len() - 1 {
                if i < s.len() - 1 {
                    assert(t[i] == x);
                } else {
                    assert(s[i] == x);
                }
            } else {
                assert(t[q] == x);
            }
            assert(t.contains(x));
        }
    };
}

/// A pointwise renaming of `from` to `to`, on a duplicate-free list
/// that does not hold `to`, keeps the list duplicate-free and maps
/// membership accordingly.
proof fn lemma_rename_contains(b: Seq<usize>, r: Seq<usize>, from: usize, to: usize)
    requires
        b.no_duplicates(),
        !b.contains(to),
        from != to,
        r.len() == b.len(),
        forall|q: int| 0 <= q < b.len() ==> #[trigger] r[q] == (if b[q] == from {
            to
        } else {
            b[q]
        }),
    ensures
        r.no_duplicates(),
        forall|x: usize|
            #[trigger] r.contains(x) <==> ((x == to && b.contains(from)) || (x != from && x != to
                && b.contains(x))),
{
    assert forall|q: int| 0 <= q < b.len() implies #[trigger] b[q] != to by {
        if b[q] == to {
            assert(b.contains(to));
        }
    };
    assert forall|a: int, c: int|
        0 <= a < r.len() && 0 <= c < r.len() && a != c implies r[a] != r[c] by {
        assert(b[a] != b[c]);
    };
    assert forall|x: usize|
        #[trigger] r.contains(x) <==> ((x == to && b.contains(from)) || (x != from && x != to
            && b.contains(x))) by {
        if r.contains(x) {
            let q = choose|q: int| 0 <= q < r.len() && #[trigger] r[q] == x;
            if b[q] == from {
                assert(x == to);
                assert(b.contains(from));
            } else {
                assert(b[q] == x);
                assert(b.contains(x));
                assert(x != to);
            }
        }
        if x == to && b.contains(from) {
            let q = choose|q: int| 0 <= q < b.len() && #[trigger] b[q] == from;
            assert(r[q] == to);
            assert(r.contains(x));
        }
        if x != from && x != to && b.contains(x) {
            let q = choose|q: int| 0 <= q < b.len() && #[trigger] b[q] == x;
            assert(r[q] == x);
            assert(r.contains(x));
        }
    };
}

/// Removes every occurrence of `target` from the list, swapping each
/// with the current last entry.
fn purge(list: &mut Vec<usize>, target: usize)
    requires
        old(list)@.no_duplicates(),
    ensures
        final(list)@.no_duplicates(),
        forall|x: usize|
            #[trigger] final(list)@.contains(x) <==> (old(list)@.contains(x) && x != target),
{
    let mut pos: usize = 0;
    while pos < list.len()
        invariant
            pos <= list@.len(),
            list@.no_duplicates(),
            forall|q: int| 0 <= q < pos ==> (#[trigger] list@[q]) != target,
            forall|x: usize| #[trigger] list@.contains(x) ==> old(list)@.contains(x),
            forall|x: usize| x != target && old(list)@.contains(x) ==> #[trigger] list@.contains(x),
        decreases list@.len() - pos,
    {
        if list[pos] == target {
            let ghost snap = list@;
            list.swap_remove(pos);
            proof {
                lemma_swap_remove_step(snap, pos as int);
                assert forall|q: int| 0 <= q < pos implies (#[trigger] list@[q]) != target by {
                    assert(list@[q] == snap[q]);
                };
            }
        } else {
            pos += 1;
        }
    }
    proof {
        assert(!list@.contains(target)) by {
            if list@.contains(target) {
                let q = choose|q: int| 0 <= q < list@.len() && #[trigger] list@[q] == target;
            }
        };
    }
}

/// Rewrites every occurrence of `from` in the list to `to`.
fn rename(list: &mut Vec<usize>, from: usize, to: usize)
    ensures
        final(list)@.len() == old(list)@.len(),
        forall|q: int|
            0 <= q < old(list)@.len() ==> #[trigger] final(list)@[q] == (if old(list)@[q] == from {
                to
            } else {
                old(list)@[q]
            }),
{
    let mut i: usize = 0;
    while i < list.len()
        invariant
            i <= list@.len(),
            list@.len() == old(list)@.len(),
            forall|q: int| i <= q < list@.len() ==> #[trigger] list@[q] == old(list)@[q],
            forall|q: int|
                0 <= q < i ==> #[trigger] list@[q] == (if old(list)@[q] == from {
                    to
                } else {
                    old(list)@[q]
                }),
        decreases list@.len() - i,
    {
        if list[i] == from {
            list[i] = to;
        }
        i += 1;
    }
}

/// Applies [`purge`] to the slot of each key, leaving other slots
/// untouched.
fn purge_listed(lists: &mut Vec<Vec<usize>>, keys: &Vec<usize>, target: usize)
    requires
        forall|q: int| 0 <= q < keys@.len() ==> (#[trigger] keys@[q] as int) < old(lists)@.len(),
        keys@.no_duplicates(),
        forall|j: int| 0 <= j < old(lists)@.len() ==> (#[trigger] old(lists)@[j]@).no_duplicates(),
    ensures
        final(lists)@.len() == old(lists)@.len(),
        forall|j: int|
            0 <= j < old(lists)@.len() ==> (#[trigger] final(lists)@[j]@).no_duplicates(),
        forall|j: int, x: usize|
            0 <= j < old(lists)@.len() && keys@.contains(j as usize) ==> ((#[trigger] final(lists)@[j]@.contains(x)) <==> (old(lists)@[j]@.contains(x) && x != target)),
        forall|j: int|
            0 <= j < old(lists)@.len() && !keys@.contains(j as usize) ==> #[trigger] final(lists)@[j] == old(lists)@[j],
{
    proof {
        assert(lists.len() == lists@.len());
    }
    let mut ki: usize = 0;
    while ki < keys.len()
        invariant
            old(lists)@.len() <= usize::MAX,
            ki <= keys@.len(),
            forall|q: int| 0 <= q < keys@.len() ==> (#[trigger] keys@[q] as int) < old(lists)@.len(),
            keys@.no_duplicates(),
            lists@.len() == old(lists)@.len(),
            forall|j: int| 0 <= j < old(lists)@.len() ==> (#[trigger] lists@[j]@).no_duplicates(),
            forall|j: int, x: usize|
                0 <= j < old(lists)@.len() && keys@.subrange(0, ki as int).contains(j as usize)
                    ==> ((#[trigger] lists@[j]@.contains(x)) <==> (old(lists)@[j]@.contains(x) && x
                    != target)),
            forall|j: int|
                0 <= j < old(lists)@.len() && !keys@.subrange(0, ki as int).contains(j as usize)
                    ==> #[trigger] lists@[j] == old(lists)@[j],
        decreases keys@.len() - ki,
    {
        let ghost snap = *lists;
        let c = keys[ki];
        proof {
            assert(!keys@.subrange(0, ki as int).contains(c)) by {
                if keys@.subrange(0, ki as int).contains(c) {
                    let q = choose|q: int|
                        0 <= q < ki && #[trigger] keys@.subrange(0, ki as int)[q] == c;
                    assert(keys@[q] == keys@[ki as int]);
                }
            };
            assert(lists@[c as int] == old(lists)@[c as int]);
        }
        purge(&mut lists[c], target);
        proof {
            assert(forall|j: int|
                0 <= j < lists@.len() && j != c ==> #[trigger] lists@[j] == snap@[j]);
            let pfx = keys@.subrange(0, ki as int + 1);
            assert(pfx[ki as int] == c);
            assert forall|j: int|
                0 <= j < old(lists)@.len() && !pfx.contains(j as usize) implies #[trigger] lists@[j]
                    == old(lists)@[j] by {
                assert(!keys@.subrange(0, ki as int).contains(j as usize)) by {
                    if keys@.subrange(0, ki as int).contains(j as usize) {
                        let q = choose|q: int|
                            0 <= q < ki && #[trigger] keys@.subrange(0, ki as int)[q] == j as usize;
                        assert(pfx[q] == j as usize);
                    }
                };
                assert(j != c as int) by {
                    if j == c as int {
                        assert(pfx.contains(j as usize));
                    }
                };
            };
            assert forall|j: int, x: usize|
                0 <= j < old(lists)@.len() && pfx.contains(j as usize) implies ((
            #[trigger] lists@[j]@.contains(x)) <==> (old(lists)@[j]@.contains(x) && x != target)) by {
                if j == c as int {
                } else {
                    assert(keys@.subrange(0, ki as int).contains(j as usize)) by {
                        let q = choose|q: int| 0 <= q < pfx.len() && #[trigger] pfx[q] == j as usize;
                        assert(q != ki);
                        assert(keys@.subrange(0, ki as int)[q] == j as usize);
                    };
                    assert(lists@[j] == snap@[j]);
                }
            };
        }
        ki += 1;
    }
    proof {
        assert(keys@.subrange(0, keys@.len() as int) =~= keys@);
    }
}

/// Applies [`rename`] to the slot of each key, leaving other slots
/// untouched.
fn rename_listed(lists: &mut Vec<Vec<usize>>, keys: &Vec<usize>, from: usize, to: usize)
    requires
        forall|q: int| 0 <= q < keys@.len() ==> (#[trigger] keys@[q] as int) < old(lists)@.len(),
        keys@.no_duplicates(),
    ensures
        final(lists)@.len() == old(lists)@.len(),
        forall|j: int|
            0 <= j < old(lists)@.len() && keys@.contains(j as usize) ==> (#[trigger] final(lists)@[j]@).len() == old(lists)@[j]@.len(),
        forall|j: int, q: int|
            0 <= j < old(lists)@.len() && keys@.contains(j as usize) && 0 <= q < old(
                lists,
            )@[j]@.len() ==> (#[trigger] final(lists)@[j]@[q]) == (if old(lists)@[j]@[q] == from {
                to
            } else {
                old(lists)@[j]@[q]
            }),
        forall|j: int|
            0 <= j < old(lists)@.len() && !keys@.contains(j as usize) ==> #[trigger] final(lists)@[j] == old(lists)@[j],
{
    proof {
        assert(lists.len() == lists@.len());
    }
    let mut ki: usize = 0;
    while ki < keys.len()
        invariant
            old(lists)@.len() <= usize::MAX,
            ki <= keys@.len(),
            forall|q: int| 0 <= q < keys@.len() ==> (#[trigger] keys@[q] as int) < old(lists)@.len(),
            keys@.no_duplicates(),
            lists@.len() == old(lists)@.len(),
            forall|j: int|
                0 <= j < old(lists)@.len() && keys@.subrange(0, ki as int).contains(j as usize)
                    ==> (#[trigger] lists@[j]@).len() == old(lists)@[j]@.len(),
            forall|j: int, q: int|
                0 <= j < old(lists)@.len() && keys@.subrange(0, ki as int).contains(j as usize)
                    && 0 <= q < old(lists)@[j]@.len() ==> (#[trigger] lists@[j]@[q]) == (if old(
                    lists,
                )@[j]@[q] == from {
                    to
                } else {
                    old(lists)@[j]@[q]
                }),
            forall|j: int|
                0 <= j < old(lists)@.len() && !keys@.subrange(0, ki as int).contains(j as usize)
                    ==> #[trigger] lists@[j] == old(lists)@[j],
        decreases keys@.len() - ki,
    {
        let ghost snap = *lists;
        let c = keys[ki];
        proof {
            assert(!keys@.subrange(0, ki as int).contains(c)) by {
                if keys@.subrange(0, ki as int).contains(c) {
                    let q = choose|q: int|
                        0 <= q < ki && #[trigger] keys@.subrange(0, ki as int)[q] == c;
                    assert(keys@[q] == keys@[ki as int]);
                }
            };
            assert(lists@[c as int] == old(lists)@[c as int]);
        }
        rename(&mut lists[c], from, to);
        proof {
            assert(forall|j: int|
                0 <= j < lists@.len() && j != c ==> #[trigger] lists@[j] == snap@[j]);
            let pfx = keys@.subrange(0, ki as int + 1);
            assert(pfx[ki as int] == c);
            assert forall|j: int|
                0 <= j < old(lists)@.len() && !pfx.contains(j as usize) implies #[trigger] lists@[j]
                    == old(lists)@[j] by {
                assert(!keys@.subrange(0, ki as int).contains(j as usize)) by {
                    if keys@.subrange(0, ki as int).contains(j as usize) {
                        let q = choose|q: int|
                            0 <= q < ki && #[trigger] keys@.subrange(0, ki as int)[q] == j as usize;
                        assert(pfx[q] == j as usize);
                    }
                };
                assert(j != c as int) by {
                    if j == c as int {
                        assert(pfx.contains(j as usize));
                    }
                };
            };
            assert forall|j: int|
                0 <= j < old(lists)@.len() && pfx.contains(j as usize) implies (
            #[trigger] lists@[j]@).len() == old(lists)@[j]@.len() by {
                if j != c as int {
                    assert(keys@.subrange(0, ki as int).contains(j as usize)) by {
                        let q = choose|q: int| 0 <= q < pfx.len() && #[trigger] pfx[q] == j as usize;
                        assert(q != ki);
                        assert(keys@.subrange(0, ki as int)[q] == j as usize);
                    };
                    assert(lists@[j] == snap@[j]);
                }
            };
            assert forall|j: int, q: int|
                0 <= j < old(lists)@.len() && pfx.contains(j as usize) && 0 <= q < old(
                    lists,
                )@[j]@.len() implies (#[trigger] lists@[j]@[q]) == (if old(lists)@[j]@[q] == from {
                to
            } else {
                old(lists)@[j]@[q]
            }) by {
                if j != c as int {
                    assert(keys@.subrange(0, ki as int).contains(j as usize)) by {
                        let w = choose|w: int| 0 <= w < pfx.len() && #[trigger] pfx[w] == j as usize;
                        assert(w != ki);
                        assert(keys@.subrange(0, ki as int)[w] == j as usize);
                    };
                    assert(lists@[j] == snap@[j]);
                }
            };
        }
        ki += 1;
    }
    proof {
        assert(keys@.subrange(0, keys@.len() as int) =~= keys@);
    }
}

/// The slot of the old forest whose node stands at slot `i` after the
/// removal of `removed`: the last slot's node fills the removed slot.
pub open spec fn swap_src(i: int, removed: int, last: int) -> int {
    if i == removed {
        last
    } else {
        i
    }
}

/// Membership in an adjacency list after `removed` is erased from it
/// and `last` is renamed to `removed`.
pub open spec fn swapped_in(s: Seq<usize>, x: usize, removed: usize, last: usize) -> bool {
    if x == removed {
        s.contains(last)
    } else {
        x != last && x != removed && s.contains(x)
    }
}

impl<M> Forest<M> {
    /// Removes the node and lets the node of the last slot fill its
    /// slot.  Every edge of the removed node is erased, and every
    /// adjacency entry naming the moved node's old id is rewritten to
    /// its new id.  Returns the id that was the last slot, so callers
    /// can rewrite their own references, or `None` when the removed
    /// slot was the last.
    pub fn swap_remove(&mut self, node: usize) -> (moved: Option<usize>)
        requires
            old(self).wf(),
            (node as int) < old(self).node_count(),
        ensures
            final(self).wf(),
            ({
                let n = old(self).node_count();
                let l = n - 1;
                &&& final(self).node_count() == l
                &&& final(self).children@.len() == l
                &&& final(self).parents@.len() == l
                &&& (if node as int == l {
                    &&& moved is None
                    &&& (forall|i: int|
                        0 <= i < l ==> #[trigger] final(self).nodes@[i] == old(self).nodes@[i])
                    &&& (forall|i: int, x: usize|
                        0 <= i < l ==> ((#[trigger] final(self).child_seq(i).contains(x)) <==> (
                        old(self).child_seq(i).contains(x) && x != node)))
                    &&& (forall|i: int, x: usize|
                        0 <= i < l ==> ((#[trigger] final(self).parent_seq(i).contains(x)) <==> (
                        old(self).parent_seq(i).contains(x) && x != node)))
                    &&& (forall|i: int|
                        0 <= i < l && !old(self).child_seq(i).contains(node) ==> #[trigger] final(self).children@[i] == old(self).children@[i])
                    &&& (forall|i: int|
                        0 <= i < l && !old(self).parent_seq(i).contains(node) ==> #[trigger] final(self).parents@[i] == old(self).parents@[i])
                } else {
                    &&& moved == Some((n - 1) as usize)
                    &&& (forall|i: int|
                        0 <= i < l ==> #[trigger] final(self).nodes@[i] == old(self).nodes@[
                            swap_src(i, node as int, l)])
                    &&& (forall|i: int, x: usize|
                        0 <= i < l ==> ((#[trigger] final(self).child_seq(i).contains(x)) <==>
                        swapped_in(
                            old(self).child_seq(swap_src(i, node as int, l)),
                            x,
                            node,
                            (n - 1) as usize,
                        )))
                    &&& (forall|i: int, x: usize|
                        0 <= i < l ==> ((#[trigger] final(self).parent_seq(i).contains(x)) <==>
                        swapped_in(
                            old(self).parent_seq(swap_src(i, node as int, l)),
                            x,
                            node,
                            (n - 1) as usize,
                        )))
                    &&& (forall|i: int|
                        0 <= i < l && !old(self).child_seq(swap_src(i, node as int, l)).contains(
                            node,
                        ) && !old(self).child_seq(swap_src(i, node as int, l)).contains(
                            (n - 1) as usize,
                        ) ==> #[trigger] final(self).children@[i] == old(self).children@[swap_src(
                            i,
                            node as int,
                            l,
                        )])
                    &&& (forall|i: int|
                        0 <= i < l && !old(self).parent_seq(swap_src(i, node as int, l)).contains(
                            node,
                        ) && !old(self).parent_seq(swap_src(i, node as int, l)).contains(
                            (n - 1) as usize,
                        ) ==> #[trigger] final(self).parents@[i] == old(self).parents@[swap_src(
                            i,
                            node as int,
                            l,
                        )])
                })
            }),
    {
        let ghost f0 = *old(self);
        let ghost n = f0.node_count();
        proof {
            assert(f0.nodes@.len() <= usize::MAX) by {
                assert(f0.nodes.len() == f0.nodes@.len());
            };
        }
        self.nodes.swap_remove(node);
        if self.nodes.len() == 0 {
            self.children.clear();
            self.parents.clear();
            return None;
        }
        let last = self.nodes.len();
        proof {
            assert(last as int == n - 1);
            assert(keys_fit(f0, f0.child_seq(node as int)));
            assert(!f0.child_seq(node as int).contains(node));
            assert forall|j: int|
                0 <= j < n implies (#[trigger] self.parents@[j]@).no_duplicates() by {
                assert(f0.parent_seq(j).no_duplicates());
            };
        }
        purge_listed(&mut self.parents, &self.children[node], node);
        proof {
            assert forall|j: int, x: usize|
                0 <= j < n implies ((#[trigger] self.parent_seq(j).contains(x)) <==> (
            f0.parent_seq(j).contains(x) && x != node)) by {
                if f0.child_seq(node as int).contains(j as usize) {
                } else {
                    assert(self.parents@[j] == f0.parents@[j]);
                    assert(f0.child_seq(node as int).contains(j as usize)
                        <==> f0.parent_seq(j).contains(node));
                }
            };
            assert(forall|j: int|
                0 <= j < n ==> (#[trigger] self.parent_seq(j)).no_duplicates());
            assert(self.parents@[node as int]@ == f0.parent_seq(node as int)) by {
                assert(!f0.child_seq(node as int).contains(node));
            };
            assert(keys_fit(f0, f0.parent_seq(node as int)));
            assert forall|j: int|
                0 <= j < n implies (#[trigger] self.children@[j]@).no_duplicates() by {
                assert(f0.child_seq(j).no_duplicates());
            };
        }
        let ghost fb = *self;
        purge_listed(&mut self.children, &self.parents[node], node);
        proof {
            assert forall|j: int, x: usize|
                0 <= j < n implies ((#[trigger] self.child_seq(j).contains(x)) <==> (
            f0.child_seq(j).contains(x) && x != node)) by {
                if f0.parent_seq(node as int).contains(j as usize) {
                } else {
                    assert(self.children@[j] == f0.children@[j]);
                    assert(f0.child_seq(j).contains(node) <==> f0.parent_seq(node as int).contains(
                        j as usize,
                    ));
                }
            };
            assert(forall|j: int|
                0 <= j < n ==> (#[trigger] self.child_seq(j)).no_duplicates());
        }
        let ghost fc = *self;
        let ghost mut fd = *self;
        if last != node {
            proof {
                assert forall|q: int|
                    0 <= q < fc.child_seq(last as int).len() implies (#[trigger] fc.child_seq(
                    last as int,
                )[q] as int) < n by {
                    let x = fc.child_seq(last as int)[q];
                    assert(fc.child_seq(last as int).contains(x));
                    assert(f0.child_seq(last as int).contains(x));
                    let w = choose|w: int|
                        0 <= w < f0.child_seq(last as int).len() && #[trigger] f0.child_seq(
                            last as int,
                        )[w] == x;
                    assert(list_in_range(f0.child_seq(last as int), n));
                };
                assert forall|q: int|
                    0 <= q < self.children@[last as int]@.len() implies (#[trigger] self.children@[
                    last as int]@[q] as int) < self.parents@.len() by {
                    assert(self.children@[last as int]@ == fc.child_seq(last as int));
                    assert((fc.child_seq(last as int)[q] as int) < n);
                };
            }
            rename_listed(&mut self.parents, &self.children[last], last, node);
            proof {
                assert forall|j: int, x: usize|
                    0 <= j < n && j != node as int implies ((#[trigger] self.parent_seq(j).contains(
                    x,
                )) <==> swapped_in(f0.parent_seq(j), x, node, last)) by {
                    let b = fc.parent_seq(j);
                    assert(b == fb.parent_seq(j));
                    assert(b.no_duplicates());
                    assert(!b.contains(node));
                    assert(b.contains(last) <==> f0.parent_seq(j).contains(last));
                    if fc.child_seq(last as int).contains(j as usize) {
                        lemma_rename_contains(b, self.parent_seq(j), last, node);
                    } else {
                        assert(self.parents@[j] == fc.parents@[j]);
                        assert(!b.contains(last)) by {
                            assert(fc.child_seq(last as int).contains(j as usize) <==> (
                            f0.child_seq(last as int).contains(j as usize) && j as usize != node));
                            assert(f0.child_seq(last as int).contains(j as usize)
                                <==> f0.parent_seq(j).contains(last));
                        };
                    }
                };
                assert forall|j: int|
                    0 <= j < n && j != node as int implies (#[trigger] self.parent_seq(
                    j,
                )).no_duplicates() by {
                    let b = fc.parent_seq(j);
                    assert(b == fb.parent_seq(j));
                    assert(b.no_duplicates());
                    assert(!b.contains(node));
                    if fc.child_seq(last as int).contains(j as usize) {
                        lemma_rename_contains(b, self.parent_seq(j), last, node);
                    } else {
                        assert(self.parents@[j] == fc.parents@[j]);
                    }
                };
                assert(self.parents@[last as int]@ == fc.parent_seq(last as int)) by {
                    assert(!fc.child_seq(last as int).contains(last));
                };
                assert(keys_fit(f0, fc.parent_seq(last as int))) by {
                    assert forall|q: int|
                        0 <= q < fc.parent_seq(last as int).len() implies (#[trigger] fc.parent_seq(
                        last as int,
                    )[q] as int) < n by {
                        let x = fc.parent_seq(last as int)[q];
                        assert(fc.parent_seq(last as int).contains(x));
                        assert(f0.parent_seq(last as int).contains(x));
                        let w = choose|w: int|
                            0 <= w < f0.parent_seq(last as int).len() && #[trigger] f0.parent_seq(
                                last as int,
                            )[w] == x;
                        assert(list_in_range(f0.parent_seq(last as int), n));
                    };
                };
                assert(fc.parent_seq(last as int).no_duplicates());
            }
            proof {
                fd = *self;
            }
            rename_listed(&mut self.children, &self.parents[last], last, node);
            proof {
                assert forall|j: int, x: usize|
                    0 <= j < n && j != node as int implies ((#[trigger] self.child_seq(j).contains(
                    x,
                )) <==> swapped_in(f0.child_seq(j), x, node, last)) by {
                    let b = fc.child_seq(j);
                    assert(fd.children@ == fc.children@);
                    assert(b.no_duplicates());
                    assert(!b.contains(node));
                    assert(b.contains(last) <==> f0.child_seq(j).contains(last));
                    if fc.parent_seq(last as int).contains(j as usize) {
                        lemma_rename_contains(b, self.child_seq(j), last, node);
                    } else {
                        assert(self.children@[j] == fc.children@[j]);
                        assert(!b.contains(last)) by {
                            assert(fc.parent_seq(last as int).contains(j as usize) <==> (
                            f0.parent_seq(last as int).contains(j as usize) && j as usize != node));
                            assert(f0.parent_seq(last as int).contains(j as usize)
                                <==> f0.child_seq(j).contains(last));
                        };
                    }
                };
                assert forall|j: int|
                    0 <= j < n && j != node as int implies (#[trigger] self.child_seq(
                    j,
                )).no_duplicates() by {
                    let b = fc.child_seq(j);
                    assert(b.no_duplicates());
                    assert(!b.contains(node));
                    if fc.parent_seq(last as int).contains(j as usize) {
                        lemma_rename_contains(b, self.child_seq(j), last, node);
                    } else {
                        assert(self.children@[j] == fc.children@[j]);
                    }
                };
            }
        }
        let ghost fe = *self;
        self.children.swap_remove(node);
        self.parents.swap_remove(node);
        let moved: Option<usize> = if last != node {
            Some(last)
        } else {
            None
        };
        proof {
            let l = n - 1;
            assert(self.children@.len() == l);
            assert(self.parents@.len() == l);
            assert forall|i: int| 0 <= i < l implies #[trigger] self.children@[i] == fe.children@[
                swap_src(i, node as int, l)] by {};
            assert forall|i: int| 0 <= i < l implies #[trigger] self.parents@[i] == fe.parents@[
                swap_src(i, node as int, l)] by {};
            if node as int == l {
                assert forall|i: int, x: usize|
                    0 <= i < l implies ((#[trigger] self.child_seq(i).contains(x)) <==> (
                f0.child_seq(i).contains(x) && x != node)) by {
                    assert(self.children@[i] == fe.children@[i]);
                    assert(self.child_seq(i) == fe.child_seq(i));
                    assert(fe.child_seq(i).contains(x) <==> (f0.child_seq(i).contains(x) && x
                        != node));
                };
                assert forall|i: int, x: usize|
                    0 <= i < l implies ((#[trigger] self.parent_seq(i).contains(x)) <==> (
                f0.parent_seq(i).contains(x) && x != node)) by {
                    assert(self.parents@[i] == fe.parents@[i]);
                    assert(fe.parents@ == fb.parents@);
                    assert(self.parent_seq(i) == fb.parent_seq(i));
                    assert(fb.parent_seq(i).contains(x) <==> (f0.parent_seq(i).contains(x) && x
                        != node));
                };
                assert forall|i: int|
                    0 <= i < l && !f0.child_seq(i).contains(node) implies #[trigger] self.children@[
                    i] == f0.children@[i] by {
                    assert(self.children@[i] == fe.children@[i]);
                    assert(!f0.parent_seq(node as int).contains(i as usize)) by {
                        assert(f0.child_seq(i).contains(node) <==> f0.parent_seq(
                            node as int,
                        ).contains(i as usize));
                    };
                    assert(fe.children@[i] == f0.children@[i]);
                };
                assert forall|i: int|
                    0 <= i < l && !f0.parent_seq(i).contains(node) implies #[trigger] self.parents@[
                    i] == f0.parents@[i] by {
                    assert(self.parents@[i] == fe.parents@[i]);
                    assert(fe.parents@ == fb.parents@);
                    assert(!f0.child_seq(node as int).contains(i as usize)) by {
                        assert(f0.child_seq(node as int).contains(i as usize) <==> f0.parent_seq(
                            i,
                        ).contains(node));
                    };
                    assert(fb.parents@[i] == f0.parents@[i]);
                };
                lemma_swap_final_wf(f0, *self, node);
            } else {
                assert forall|i: int, x: usize|
                    0 <= i < l implies ((#[trigger] self.child_seq(i).contains(x)) <==> swapped_in(
                    f0.child_seq(swap_src(i, node as int, l)),
                    x,
                    node,
                    last,
                )) by {
                    let src = swap_src(i, node as int, l);
                    assert(self.children@[i] == fe.children@[src]);
                    assert(src != node as int);
                    assert(self.child_seq(i) == fe.child_seq(src));
                    assert(fe.child_seq(src).contains(x) <==> swapped_in(
                        f0.child_seq(src),
                        x,
                        node,
                        last,
                    ));
                };
                assert forall|i: int, x: usize|
                    0 <= i < l implies ((#[trigger] self.parent_seq(i).contains(x)) <==> swapped_in(
                    f0.parent_seq(swap_src(i, node as int, l)),
                    x,
                    node,
                    last,
                )) by {
                    let src = swap_src(i, node as int, l);
                    assert(self.parents@[i] == fe.parents@[src]);
                    assert(src != node as int);
                    assert(fe.parents@ == fd.parents@);
                    assert(self.parent_seq(i) == fd.parent_seq(src));
                    assert(fd.parent_seq(src).contains(x) <==> swapped_in(
                        f0.parent_seq(src),
                        x,
                        node,
                        last,
                    ));
                };
                assert forall|i: int|
                    0 <= i < l implies (#[trigger] self.child_seq(i)).no_duplicates() by {
                    let src = swap_src(i, node as int, l);
                    assert(src != node as int);
                    assert(self.children@[i] == fe.children@[src]);
                    assert(fe.child_seq(src).no_duplicates());
                };
                assert forall|i: int|
                    0 <= i < l implies (#[trigger] self.parent_seq(i)).no_duplicates() by {
                    let src = swap_src(i, node as int, l);
                    assert(src != node as int);
                    assert(self.parents@[i] == fe.parents@[src]);
                    assert(fe.parents@ == fd.parents@);
                    assert(self.parent_seq(i) == fd.parent_seq(src));
                    assert(fd.parent_seq(src).no_duplicates());
                };
                assert forall|i: int|
                    0 <= i < l && !f0.child_seq(swap_src(i, node as int, l)).contains(node)
                        && !f0.child_seq(swap_src(i, node as int, l)).contains(last) implies
                    #[trigger] self.children@[i] == f0.children@[swap_src(i, node as int, l)] by {
                    let src = swap_src(i, node as int, l);
                    assert(self.children@[i] == fe.children@[src]);
                    assert(!f0.parent_seq(node as int).contains(src as usize)) by {
                        assert(f0.child_seq(src).contains(node) <==> f0.parent_seq(
                            node as int,
                        ).contains(src as usize));
                    };
                    assert(fc.children@[src] == f0.children@[src]);
                    assert(!fc.parent_seq(last as int).contains(src as usize)) by {
                        assert(fc.parent_seq(last as int).contains(src as usize) <==> (
                        f0.parent_seq(last as int).contains(src as usize) && src as usize != node));
                        assert(f0.child_seq(src).contains(last) <==> f0.parent_seq(
                            last as int,
                        ).contains(src as usize));
                    };
                    assert(fe.children@[src] == fd.children@[src]);
                    assert(fd.children@[src] == fc.children@[src]);
                };
                assert forall|i: int|
                    0 <= i < l && !f0.parent_seq(swap_src(i, node as int, l)).contains(node)
                        && !f0.parent_seq(swap_src(i, node as int, l)).contains(last) implies
                    #[trigger] self.parents@[i] == f0.parents@[swap_src(i, node as int, l)] by {
                    let src = swap_src(i, node as int, l);
                    assert(self.parents@[i] == fe.parents@[src]);
                    assert(fe.parents@ == fd.parents@);
                    assert(!f0.child_seq(node as int).contains(src as usize)) by {
                        assert(f0.child_seq(node as int).contains(src as usize) <==> f0.parent_seq(
                            src,
                        ).contains(node));
                    };
                    assert(fb.parents@[src] == f0.parents@[src]);
                    assert(!fc.child_seq(last as int).contains(src as usize)) by {
                        assert(fc.child_seq(last as int).contains(src as usize) <==> (f0.child_seq(
                            last as int,
                        ).contains(src as usize) && src as usize != node));
                        assert(f0.child_seq(last as int).contains(src as usize) <==> f0.parent_seq(
                            src,
                        ).contains(last));
                    };
                    assert(fd.parents@[src] == fb.parents@[src]);
                };
                lemma_swap_final_wf_moved(f0, *self, node, last);
            }
        }
        moved
    }
}

/// Every key is a live slot of `f`.
spec fn keys_fit<M>(f: Forest<M>, keys: Seq<usize>) -> bool {
    forall|q: int| 0 <= q < keys.len() ==> (#[trigger] keys[q] as int) < f.node_count()
}

/// The forest that remains after dropping the last slot, with the
/// removed node's entries erased, is well formed.
proof fn lemma_swap_final_wf<M>(f0: Forest<M>, post: Forest<M>, node: usize)
    requires
        f0.wf(),
        node as int == f0.node_count() - 1,
        post.node_count() == f0.node_count() - 1,
        post.children@.len() == post.node_count(),
        post.parents@.len() == post.node_count(),
        forall|i: int| 0 <= i < post.node_count() ==> #[trigger] post.nodes@[i] == f0.nodes@[i],
        forall|i: int|
            0 <= i < post.node_count() ==> (#[trigger] post.child_seq(i)).no_duplicates(),
        forall|i: int|
            0 <= i < post.node_count() ==> (#[trigger] post.parent_seq(i)).no_duplicates(),
        forall|i: int, x: usize|
            0 <= i < post.node_count() ==> ((#[trigger] post.child_seq(i).contains(x)) <==> (
            f0.child_seq(i).contains(x) && x != node)),
        forall|i: int, x: usize|
            0 <= i < post.node_count() ==> ((#[trigger] post.parent_seq(i).contains(x)) <==> (
            f0.parent_seq(i).contains(x) && x != node)),
    ensures
        post.wf(),
{
    let l = post.node_count();
    assert(f0.nodes@.len() <= usize::MAX) by {
        assert(f0.nodes.len() == f0.nodes@.len());
    };
    assert forall|i: int| 0 <= i < l implies list_in_range(#[trigger] post.child_seq(i), l)
        && !post.child_seq(i).contains(i as usize) by {
        assert forall|q: int|
            0 <= q < post.child_seq(i).len() implies (#[trigger] post.child_seq(i)[q]) < l by {
            let x = post.child_seq(i)[q];
            assert(post.child_seq(i).contains(x));
            assert(f0.child_seq(i).contains(x) && x != node);
            let w = choose|w: int|
                0 <= w < f0.child_seq(i).len() && #[trigger] f0.child_seq(i)[w] == x;
            assert(list_in_range(f0.child_seq(i), f0.node_count()));
        };
        if post.child_seq(i).contains(i as usize) {
            assert(f0.child_seq(i).contains(i as usize));
        }
    };
    assert forall|i: int| 0 <= i < l implies list_in_range(#[trigger] post.parent_seq(i), l) by {
        assert forall|q: int|
            0 <= q < post.parent_seq(i).len() implies (#[trigger] post.parent_seq(i)[q]) < l by {
            let x = post.parent_seq(i)[q];
            assert(post.parent_seq(i).contains(x));
            assert(f0.parent_seq(i).contains(x) && x != node);
            let w = choose|w: int|
                0 <= w < f0.parent_seq(i).len() && #[trigger] f0.parent_seq(i)[w] == x;
            assert(list_in_range(f0.parent_seq(i), f0.node_count()));
        };
    };
    assert forall|i: int, j: int|
        0 <= i < l && 0 <= j < l implies ((#[trigger] post.child_seq(i)).contains(j as usize)
        <==> (#[trigger] post.parent_seq(j)).contains(i as usize)) by {
        assert(f0.child_seq(i).contains(j as usize) <==> f0.parent_seq(j).contains(i as usize));
    };
    assert forall|i: int| 0 <= i < l implies (#[trigger] post.nodes@[i]).offset >= 0 by {
        assert(f0.nodes@[i].offset >= 0);
    };
}

/// The forest that remains after the last slot's node filled the
/// removed slot, with the edges erased and renamed, is well formed.
proof fn lemma_swap_final_wf_moved<M>(f0: Forest<M>, post: Forest<M>, node: usize, last: usize)
    requires
        f0.wf(),
        (node as int) < f0.node_count() - 1,
        last as int == f0.node_count() - 1,
        post.node_count() == f0.node_count() - 1,
        post.children@.len() == post.node_count(),
        post.parents@.len() == post.node_count(),
        forall|i: int|
            0 <= i < post.node_count() ==> #[trigger] post.nodes@[i] == f0.nodes@[swap_src(
                i,
                node as int,
                f0.node_count() - 1,
            )],
        forall|i: int|
            0 <= i < post.node_count() ==> (#[trigger] post.child_seq(i)).no_duplicates(),
        forall|i: int|
            0 <= i < post.node_count() ==> (#[trigger] post.parent_seq(i)).no_duplicates(),
        forall|i: int, x: usize|
            0 <= i < post.node_count() ==> ((#[trigger] post.child_seq(i).contains(x)) <==>
            swapped_in(f0.child_seq(swap_src(i, node as int, last as int)), x, node, last)),
        forall|i: int, x: usize|
            0 <= i < post.node_count() ==> ((#[trigger] post.parent_seq(i).contains(x)) <==>
            swapped_in(f0.parent_seq(swap_src(i, node as int, last as int)), x, node, last)),
    ensures
        post.wf(),
{
    let l = post.node_count();
    assert(f0.nodes@.len() <= usize::MAX) by {
        assert(f0.nodes.len() == f0.nodes@.len());
    };
    assert forall|i: int| 0 <= i < l implies list_in_range(#[trigger] post.child_seq(i), l)
        && !post.child_seq(i).contains(i as usize) by {
        let src = swap_src(i, node as int, last as int);
        assert forall|q: int|
            0 <= q < post.child_seq(i).len() implies (#[trigger] post.child_seq(i)[q]) < l by {
            let x = post.child_seq(i)[q];
            assert(post.child_seq(i).contains(x));
            assert(swapped_in(f0.child_seq(src), x, node, last));
            if x == node {
            } else {
                let w = choose|w: int|
                    0 <= w < f0.child_seq(src).len() && #[trigger] f0.child_seq(src)[w] == x;
                assert(list_in_range(f0.child_seq(src), f0.node_count()));
            }
        };
        if post.child_seq(i).contains(i as usize) {
            assert(swapped_in(f0.child_seq(src), i as usize, node, last));
            if i == node as int {
                assert(f0.child_seq(last as int).contains(last));
            } else {
                assert(f0.child_seq(i).contains(i as usize));
            }
        }
    };
    assert forall|i: int| 0 <= i < l implies list_in_range(#[trigger] post.parent_seq(i), l) by {
        let src = swap_src(i, node as int, last as int);
        assert forall|q: int|
            0 <= q < post.parent_seq(i).len() implies (#[trigger] post.parent_seq(i)[q]) < l by {
            let x = post.parent_seq(i)[q];
            assert(post.parent_seq(i).contains(x));
            assert(swapped_in(f0.parent_seq(src), x, node, last));
            if x == node {
            } else {
                let w = choose|w: int|
                    0 <= w < f0.parent_seq(src).len() && #[trigger] f0.parent_seq(src)[w] == x;
                assert(list_in_range(f0.parent_seq(src), f0.node_count()));
            }
        };
    };
    assert forall|i: int, j: int|
        0 <= i < l && 0 <= j < l implies ((#[trigger] post.child_seq(i)).contains(j as usize)
        <==> (#[trigger] post.parent_seq(j)).contains(i as usize)) by {
        let srci = swap_src(i, node as int, last as int);
        let srcj = swap_src(j, node as int, last as int);
        assert(f0.child_seq(srci).contains(srcj as usize) <==> f0.parent_seq(srcj).contains(
            srci as usize,
        ));
        assert(f0.child_seq(srci).contains(j as usize) <==> f0.parent_seq(j as int).contains(
            srci as usize,
        ));
        assert(f0.child_seq(i).contains(srcj as usize) <==> f0.parent_seq(srcj).contains(
            i as usize,
        ));
        assert(f0.child_seq(i).contains(j as usize) <==> f0.parent_seq(j).contains(i as usize));
    };
    assert forall|i: int| 0 <= i < l implies (#[trigger] post.nodes@[i]).offset >= 0 by {
        assert(f0.nodes@[swap_src(i, node as int, last as int)].offset >= 0);
    };
}

/// Appending a child and then detaching it at that same index is a
/// layout-preserving round trip: every child list and every parent
/// list is as before, and every node keeps its layout, style,
/// measurement slot, flags, translation, offset and counters; only
/// dirty bits and cached layouts may differ.
///
/// `f1` relates to `f0` as [`Forest::add_child`] promises, and `f2`
/// to `f1` as [`Forest::remove_child_at_index`] promises for the
/// index at which the child was appended.
pub proof fn lemma_add_remove_round_trip<M>(
    f0: Forest<M>,
    f1: Forest<M>,
    f2: Forest<M>,
    node: usize,
    child: usize,
)
    requires
        f0.wf(),
        (node as int) < f0.node_count(),
        (child as int) < f0.node_count(),
        node != child,
        !f0.has_edge(node, child),
        f1.node_count() == f0.node_count(),
        f1.child_seq(node as int) == f0.child_seq(node as int).push(child),
        f1.parent_seq(child as int) == f0.parent_seq(child as int).push(node),
        forall|i: int|
            0 <= i < f0.node_count() && i != node as int ==> #[trigger] f1.child_seq(i)
                == f0.child_seq(i),
        forall|i: int|
            0 <= i < f0.node_count() && i != child as int ==> #[trigger] f1.parent_seq(i)
                == f0.parent_seq(i),
        forall|j: int|
            0 <= j < f0.node_count() ==> #[trigger] f1.nodes@[j] == (if is_ancestor(
                f1.parent_map(),
                node as int,
                j,
            ) {
                dirtied(f0.nodes@[j])
            } else {
                f0.nodes@[j]
            }),
        f2.node_count() == f1.node_count(),
        f2.child_seq(node as int) == f1.child_seq(node as int).remove(
            f0.child_seq(node as int).len() as int,
        ),
        f2.parent_seq(child as int) == without(f1.parent_seq(child as int), node),
        forall|i: int|
            0 <= i < f1.node_count() && i != node as int ==> #[trigger] f2.child_seq(i)
                == f1.child_seq(i),
        forall|i: int|
            0 <= i < f1.node_count() && i != child as int ==> #[trigger] f2.parent_seq(i)
                == f1.parent_seq(i),
        forall|j: int|
            0 <= j < f1.node_count() ==> #[trigger] f2.nodes@[j] == (if is_ancestor(
                f2.parent_map(),
                node as int,
                j,
            ) {
                dirtied(f1.nodes@[j])
            } else {
                f1.nodes@[j]
            }),
    ensures
        forall|i: int| 0 <= i < f0.node_count() ==> #[trigger] f2.child_seq(i) == f0.child_seq(i),
        forall|i: int| 0 <= i < f0.node_count() ==> #[trigger] f2.parent_seq(i) == f0.parent_seq(i),
        forall|j: int|
            0 <= j < f0.node_count() ==> (#[trigger] f2.nodes@[j]).layout == f0.nodes@[j].layout
                && f2.nodes@[j].style == f0.nodes@[j].style && f2.nodes@[j].measure == f0.nodes@[
                j].measure && f2.nodes@[j].scroll_view == f0.nodes@[j].scroll_view && f2.nodes@[
                j].x == f0.nodes@[j].x && f2.nodes@[j].y == f0.nodes@[j].y && f2.nodes@[j].bottom
                == f0.nodes@[j].bottom && f2.nodes@[j].right == f0.nodes@[j].right && f2.nodes@[
                j].offset == f0.nodes@[j].offset && f2.nodes@[j].cache_el_count == f0.nodes@[
                j].cache_el_count && f2.nodes@[j].cache_farest_element == f0.nodes@[
                j].cache_farest_element,
{
    let kids0 = f0.child_seq(node as int);
    assert(f2.child_seq(node as int) =~= kids0) by {
        assert(f1.child_seq(node as int).remove(kids0.len() as int) =~= kids0);
    };
    assert(!f0.parent_seq(child as int).contains(node));
    assert(f2.parent_seq(child as int) =~= f0.parent_seq(child as int)) by {
        let ps0 = f0.parent_seq(child as int);
        assert(ps0.push(node).last() == node);
        assert(ps0.push(node).drop_last() =~= ps0);
        assert(without(ps0.push(node), node) == without(ps0, node));
        lemma_without_absent(ps0, node);
    };
    assert forall|i: int|
        0 <= i < f0.node_count() implies #[trigger] f2.child_seq(i) == f0.child_seq(i)
            && f2.parent_seq(i) == f0.parent_seq(i) by {
        if i != node as int {
            assert(f2.child_seq(i) == f1.child_seq(i));
        }
        if i != child as int {
            assert(f2.parent_seq(i) == f1.parent_seq(i));
        }
    };
}

} // verus!
