//! The live tree: owns the storage arena, the dirty tracker, the listener
//! index and the watch-event log, and is the sole sanctioned way to edit
//! structure, content, attributes and listeners.
use vstd::prelude::*;

use crate::node::{
    can_listen, content_matches, content_wf, listeners_of, str_set, AttributeKey, AttributeValue,
    NodeType,
};
use crate::node_ref::{mv_all, mv_listeners, MaskView, NodeMask};
use crate::passes::{
    child_dependant_ids, interested_ids, mask_marked, parent_dependant_ids, pass_ids,
    pass_ids_unique, passes_marked, NodesDirty, PassDescriptor,
};
use crate::tree::{copy_usizes, find_usize, Tree};

verus! {

/// What watchers are told, in order: a node was added, removed or moved.
pub enum WatchEvent {
    Added(usize),
    Removed(usize),
    Moved(usize),
}

/// One unit of pending work handed to the resolution engine: run `pass`
/// on `node`, which sat at `height` when the cycle was drained.
pub struct WorkItem {
    pub pass: u64,
    pub node: usize,
    pub height: u16,
}

/// The live tree.
pub struct RealDom {
    pub tree: Tree,
    pub nodes_listening: Vec<(String, Vec<usize>)>,
    pub dirty_nodes: NodesDirty,
    pub events: Vec<WatchEvent>,
}

/// Whether the raw listener index lists `n` under event name `e`.
pub open spec fn listed(v: Seq<(String, Vec<usize>)>, e: Seq<char>, n: usize) -> bool {
    exists|i: int| 0 <= i < v.len() && (#[trigger] v[i]).0@ == e && v[i].1@.contains(n)
}

impl RealDom {
    /// Whether node `n` is indexed as listening for event name `e`.
    pub open spec fn is_listening(self, e: Seq<char>, n: usize) -> bool {
        listed(self.nodes_listening@, e, n)
    }

    /// Structural soundness of the listener index itself: one entry per
    /// event name, duplicate-free node lists.
    pub open spec fn index_wf(self) -> bool {
        &&& (forall|i: int, j: int|
            0 <= i < j < self.nodes_listening@.len() ==> self.nodes_listening@[i].0@
                != self.nodes_listening@[j].0@)
        &&& (forall|i: int|
            0 <= i < self.nodes_listening@.len() ==> (#[trigger] self.nodes_listening@[i]).1@
                .no_duplicates())
        &&& (forall|i: int, j: int|
            0 <= i < self.nodes_listening@.len() && 0 <= j < self.nodes_listening@[i].1@.len()
                ==> {
                let n = #[trigger] self.nodes_listening@[i].1@[j];
                &&& self.tree.present(n as int)
                &&& listeners_of(self.tree.content_of(n as int)).contains(
                    self.nodes_listening@[i].0@,
                )
            })
        &&& (forall|n: int, e: Seq<char>|
            self.tree.present(n) && #[trigger] listeners_of(self.tree.content_of(n)).contains(e)
                ==> self.is_listening(e, n as usize))
    }

    /// Well-formedness of the whole engine: a well-formed tree, a sound
    /// listener index whose entries all point at live listening nodes, and
    /// pending dirty entries only under identities the arena has issued.
    pub open spec fn wf(self) -> bool {
        &&& self.tree.wf()
        &&& self.index_wf()
        &&& (forall|k: usize|
            #[trigger] self.dirty_nodes.pending_passes().dom().contains(k) ==> (k as int)
                < self.tree.nodes@.len())
        &&& (forall|k: usize|
            #[trigger] self.dirty_nodes.pending_masks().dom().contains(k) ==> (k as int)
                < self.tree.nodes@.len())
    }

    /// The registered passes.
    pub open spec fn passes(self) -> Seq<PassDescriptor> {
        self.dirty_nodes.passes@
    }

    /// A fresh engine over the given pass registry: dependency edges are
    /// inverted once, the root element exists, and the root is pending for
    /// every registered pass with every facet marked changed.
    pub fn new(passes: Vec<PassDescriptor>) -> (r: RealDom)
        requires
            pass_ids_unique(passes@),
            forall|k: int| 0 <= k < passes@.len() ==> passes@[k].dependants@.len() == 0,
        ensures
            r.wf(),
            r.tree.nodes@.len() == 1,
            r.tree.present(0),
            r.tree.parent_of(0) is None,
            r.tree.height_of(0) == 0,
            r.tree.content_of(0) is Element,
            r.tree.content_of(0)->Element_0.tag@ == "Root"@,
            r.tree.content_of(0)->Element_0.namespace is Some,
            r.tree.content_of(0)->Element_0.namespace->0@ == "Root"@,
            r.tree.content_of(0)->Element_0.attributes@ == Seq::<(
                AttributeKey,
                AttributeValue,
            )>::empty(),
            r.tree.content_of(0)->Element_0.listeners@ == Seq::<String>::empty(),
            r.passes().len() == passes@.len(),
            forall|k: int|
                0 <= k < passes@.len() ==> crate::passes::same_except_dependants(
                    #[trigger] r.passes()[k],
                    passes@[k],
                ),
            forall|k: int|
                0 <= k < passes@.len() ==> crate::passes::u64_set(
                    #[trigger] r.passes()[k].dependants@,
                ) == crate::passes::direct_dependants(passes@, k),
            r.dirty_nodes.pending_passes() == Map::<usize, Set<u64>>::empty().insert(
                0usize,
                pass_ids(passes@),
            ),
            r.dirty_nodes.pending_masks() == Map::<usize, MaskView>::empty().insert(
                0usize,
                mv_all(),
            ),
            forall|e: Seq<char>, n: usize| !r.is_listening(e, n),
            r.events@ == Seq::<WatchEvent>::empty(),
    {
        let mut passes = passes;
        let ghost porig: Seq<PassDescriptor> = passes@;
        crate::passes::resolve_dependants(&mut passes);
        let root_content = NodeType::Element(
            crate::node::ElementNode {
                tag: crate::root_tag(),
                namespace: Some(crate::root_tag()),
                attributes: Vec::new(),
                listeners: Vec::new(),
            },
        );
        let tree = Tree::new(root_content);
        let ghost ids = pass_ids(passes@);
        let mut dirty_nodes = NodesDirty::new(passes);
        dirty_nodes.mark_all_passes(0);
        let mask_all = NodeMask::new_all();
        let mut masks = dirty_nodes.take_pending_mask(0);
        dirty_nodes.mark_dirty(0, mask_all);
        let r = RealDom { tree, nodes_listening: Vec::new(), dirty_nodes, events: Vec::new() };
        proof {
            assert(ids.union(
                interested_ids(r.passes(), crate::node_ref::mv_all()),
            ) =~= ids) by {
                assert forall|x: u64|
                    ids.union(interested_ids(r.passes(), crate::node_ref::mv_all())).contains(
                        x,
                    ) implies ids.contains(x) by {
                    if interested_ids(r.passes(), crate::node_ref::mv_all()).contains(x) {
                        let i = choose|i: int|
                            0 <= i < r.passes().len() && #[trigger] r.passes()[i].id == x
                                && crate::node_ref::mv_overlaps(
                                r.passes()[i].mask@,
                                crate::node_ref::mv_all(),
                            );
                    }
                }
            }
            assert(pass_ids(porig) =~= ids) by {
                assert forall|x: u64| pass_ids(porig).contains(x) implies ids.contains(x) by {
                    let i = choose|i: int|
                        0 <= i < porig.len() && #[trigger] porig[i].id == x;
                    assert(r.passes()[i].id == x);
                }
                assert forall|x: u64| ids.contains(x) implies pass_ids(porig).contains(x) by {
                    let i = choose|i: int|
                        0 <= i < r.passes().len() && #[trigger] r.passes()[i].id == x;
                    assert(porig[i].id == x);
                }
            }
            assert(r.dirty_nodes.pending_passes() =~~= Map::<usize, Set<u64>>::empty().insert(
                0usize,
                pass_ids(porig),
            ));
            assert(r.dirty_nodes.pending_masks() =~~= Map::<usize, MaskView>::empty().insert(
                0usize,
                mv_all(),
            ));
            assert forall|e: Seq<char>, n: usize| !r.is_listening(e, n) by {}
        }
        r
    }

    /// Allocate a node: fresh identity, detached, pending for every
    /// registered pass; fires an added notification.
    pub fn create_node(&mut self, node: NodeType) -> (id: usize)
        requires
            old(self).wf(),
            content_wf(node),
            listeners_of(node) == Set::<Seq<char>>::empty(),
        ensures
            final(self).wf(),
            id == old(self).tree.nodes@.len(),
            final(self).tree.nodes@.len() == old(self).tree.nodes@.len() + 1,
            final(self).tree.present(id as int),
            final(self).tree.parent_of(id as int) is None,
            final(self).tree.height_of(id as int) == 0,
            final(self).tree.content_of(id as int) == node,
            forall|k: int| k != id ==> final(self).tree.present(k) == old(self).tree.present(k),
            forall|k: int|
                old(self).tree.present(k) ==> final(self).tree.node_of(k) == old(
                    self,
                ).tree.node_of(k),
            final(self).passes() == old(self).passes(),
            final(self).dirty_nodes.pending_passes() == old(
                self,
            ).dirty_nodes.pending_passes().insert(id, pass_ids(old(self).passes())),
            final(self).dirty_nodes.pending_masks() == old(self).dirty_nodes.pending_masks(),
            final(self).nodes_listening == old(self).nodes_listening,
            final(self).events@ == old(self).events@.push(WatchEvent::Added(id)),
    {
        let id = self.tree.create_node(node);
        self.dirty_nodes.mark_all_passes(id);
        self.events.push(WatchEvent::Added(id));
        proof {
            assert(!old(self).dirty_nodes.pending_passes().dom().contains(id));
            assert(self.dirty_nodes.pending_passes() =~~= old(
                self,
            ).dirty_nodes.pending_passes().insert(id, pass_ids(old(self).passes())));
            assert(self.index_wf()) by {
                assert forall|i: int, j: int|
                    0 <= i < self.nodes_listening@.len() && 0 <= j
                        < self.nodes_listening@[i].1@.len() implies {
                    let n = #[trigger] self.nodes_listening@[i].1@[j];
                    &&& self.tree.present(n as int)
                    &&& listeners_of(self.tree.content_of(n as int)).contains(
                        self.nodes_listening@[i].0@,
                    )
                } by {
                    let n = self.nodes_listening@[i].1@[j];
                    assert(old(self).tree.present(n as int));
                }
                assert forall|n: int, e: Seq<char>|
                    self.tree.present(n) && #[trigger] listeners_of(
                        self.tree.content_of(n),
                    ).contains(e) implies self.is_listening(e, n as usize) by {
                    assert(self.tree.nodes@.len() <= usize::MAX) by {
                        assert(self.tree.nodes.len() == self.tree.nodes@.len());
                    }
                    assert((n as usize) as int == n);
                    if n == id {
                        assert(listeners_of(node).contains(e));
                    } else {
                        assert(old(self).tree.present(n));
                        assert(listeners_of(old(self).tree.content_of(n)).contains(e));
                        assert(old(self).is_listening(e, n as usize));
                    }
                }
            }
        }
        id
    }

    /// The number of nodes beside the root.
    pub fn size(&self) -> (r: usize)
        requires
            self.wf(),
        ensures
            r == crate::tree::count_present(self.tree.nodes@, self.tree.nodes@.len() as int) - 1,
    {
        proof {
            crate::tree::lemma_count_present_at_least_one(
                self.tree.nodes@,
                self.tree.nodes@.len() as int,
                0,
            );
        }
        self.tree.size() - 1
    }

    /// The identity of the root node.
    pub fn root_id(&self) -> (r: usize)
        ensures
            r == 0,
    {
        0
    }

    /// Read access to a node's content; absence for dead identities.
    pub fn get(&self, id: usize) -> (r: Option<&NodeType>)
        ensures
            match r {
                Some(c) => self.tree.present(id as int) && *c == self.tree.content_of(id as int),
                None => !self.tree.present(id as int),
            },
    {
        self.tree.content(id)
    }

    /// The parent of a node.
    pub fn parent_id(&self, id: usize) -> (r: Option<usize>)
        ensures
            r == (if self.tree.present(id as int) {
                self.tree.parent_of(id as int)
            } else {
                None::<usize>
            }),
    {
        self.tree.parent_id(id)
    }

    /// A copy of a node's child list.
    pub fn child_ids(&self, id: usize) -> (r: Option<Vec<usize>>)
        ensures
            match r {
                Some(v) => self.tree.present(id as int) && v@ == self.tree.kids(id as int),
                None => !self.tree.present(id as int),
            },
    {
        self.tree.children_ids(id)
    }

    /// A node's current height.
    pub fn height(&self, id: usize) -> (r: Option<u16>)
        ensures
            r == (if self.tree.present(id as int) {
                Some(self.tree.height_of(id as int))
            } else {
                None::<u16>
            }),
    {
        self.tree.height(id)
    }

    /// Everything recorded for watchers since the last call, oldest first;
    /// the log is left empty.
    pub fn take_watch_events(&mut self) -> (r: Vec<WatchEvent>)
        ensures
            r@ == old(self).events@,
            final(self).events@ == Seq::<WatchEvent>::empty(),
            final(self).tree == old(self).tree,
            final(self).nodes_listening == old(self).nodes_listening,
            final(self).dirty_nodes == old(self).dirty_nodes,
    {
        let mut taken: Vec<WatchEvent> = Vec::new();
        core::mem::swap(&mut taken, &mut self.events);
        taken
    }

    /// Move `child` (with its subtree) under `parent`, at the end of the
    /// child list. On success the parent gets a child-dependant mark, the
    /// child a parent-dependant mark, and a moved notification fires; an
    /// inadmissible request changes nothing.
    pub fn add_child(&mut self, parent: usize, child: usize) -> (ok: bool)
        requires
            old(self).wf(),
        ensures
            final(self).wf(),
            ok == old(self).tree.attach_ok(parent, child, None),
            !ok ==> *final(self) == *old(self),
            ok ==> {
                &&& Tree::attached_shape(old(self).tree, final(self).tree, parent, child, None)
                &&& final(self).passes() == old(self).passes()
                &&& final(self).dirty_nodes.pending_passes() == passes_marked(
                    passes_marked(
                        old(self).dirty_nodes.pending_passes(),
                        parent,
                        child_dependant_ids(old(self).passes()),
                    ),
                    child,
                    parent_dependant_ids(old(self).passes()),
                )
                &&& final(self).dirty_nodes.pending_masks() == old(
                    self,
                ).dirty_nodes.pending_masks()
                &&& final(self).nodes_listening == old(self).nodes_listening
                &&& final(self).events@ == old(self).events@.push(WatchEvent::Moved(child))
            },
    {
        let ok = self.tree.attach(parent, child, None);
        if ok {
            self.dirty_nodes.mark_child_changed(parent);
            self.dirty_nodes.mark_parent_added_or_removed(child);
            self.events.push(WatchEvent::Moved(child));
            proof {
                lemma_index_wf_after_structural(*old(self), *self);
            }
        }
        ok
    }

    /// Move `id` (with its subtree) to sit right after sibling `old_id`.
    /// Marks and the moved notification fire as for an attachment; a
    /// request whose anchor has no parent, or that is otherwise
    /// inadmissible, changes nothing.
    pub fn insert_after(&mut self, id: usize, old_id: usize) -> (ok: bool)
        requires
            old(self).wf(),
        ensures
            final(self).wf(),
            !ok ==> *final(self) == *old(self),
            ok == (old(self).tree.present(old_id as int) && old(self).tree.parent_of(
                old_id as int,
            ) is Some && old(self).tree.attach_ok(
                old(self).tree.parent_get(old_id as int),
                id,
                Some((old_id, true)),
            )),
            ok ==> {
                &&& Tree::attached_shape(
                    old(self).tree,
                    final(self).tree,
                    old(self).tree.parent_get(old_id as int),
                    id,
                    Some((old_id, true)),
                )
                &&& final(self).passes() == old(self).passes()
                &&& final(self).dirty_nodes.pending_passes() == passes_marked(
                    passes_marked(
                        old(self).dirty_nodes.pending_passes(),
                        old(self).tree.parent_get(old_id as int),
                        child_dependant_ids(old(self).passes()),
                    ),
                    id,
                    parent_dependant_ids(old(self).passes()),
                )
                &&& final(self).dirty_nodes.pending_masks() == old(
                    self,
                ).dirty_nodes.pending_masks()
                &&& final(self).nodes_listening == old(self).nodes_listening
                &&& final(self).events@ == old(self).events@.push(WatchEvent::Moved(id))
            },
    {
        let p = match self.tree.parent_id(old_id) {
            Some(p) => p,
            None => {
                return false;
            },
        };
        let ok = self.tree.attach(p, id, Some((old_id, true)));
        if ok {
            self.dirty_nodes.mark_child_changed(p);
            self.dirty_nodes.mark_parent_added_or_removed(id);
            self.events.push(WatchEvent::Moved(id));
            proof {
                lemma_index_wf_after_structural(*old(self), *self);
            }
        }
        ok
    }

    /// Move `id` (with its subtree) to sit right before sibling `old_id`.
    pub fn insert_before(&mut self, id: usize, old_id: usize) -> (ok: bool)
        requires
            old(self).wf(),
        ensures
            final(self).wf(),
            !ok ==> *final(self) == *old(self),
            ok == (old(self).tree.present(old_id as int) && old(self).tree.parent_of(
                old_id as int,
            ) is Some && old(self).tree.attach_ok(
                old(self).tree.parent_get(old_id as int),
                id,
                Some((old_id, false)),
            )),
            ok ==> {
                &&& Tree::attached_shape(
                    old(self).tree,
                    final(self).tree,
                    old(self).tree.parent_get(old_id as int),
                    id,
                    Some((old_id, false)),
                )
                &&& final(self).passes() == old(self).passes()
                &&& final(self).dirty_nodes.pending_passes() == passes_marked(
                    passes_marked(
                        old(self).dirty_nodes.pending_passes(),
                        old(self).tree.parent_get(old_id as int),
                        child_dependant_ids(old(self).passes()),
                    ),
                    id,
                    parent_dependant_ids(old(self).passes()),
                )
                &&& final(self).dirty_nodes.pending_masks() == old(
                    self,
                ).dirty_nodes.pending_masks()
                &&& final(self).nodes_listening == old(self).nodes_listening
                &&& final(self).events@ == old(self).events@.push(WatchEvent::Moved(id))
            },
    {
        let p = match self.tree.parent_id(old_id) {
            Some(p) => p,
            None => {
                return false;
            },
        };
        let ok = self.tree.attach(p, id, Some((old_id, false)));
        if ok {
            self.dirty_nodes.mark_child_changed(p);
            self.dirty_nodes.mark_parent_added_or_removed(id);
            self.events.push(WatchEvent::Moved(id));
            proof {
                lemma_index_wf_after_structural(*old(self), *self);
            }
        }
        ok
    }
    /// Register `id` as listening for `event`: the name joins the node's
    /// own listener set and the index, and only the listener facet is
    /// marked dirty. A dead identity or a placeholder changes nothing.
    pub fn add_event_listener(&mut self, id: usize, event: &str)
        requires
            old(self).wf(),
        ensures
            final(self).wf(),
            !(old(self).tree.present(id as int) && can_listen(
                old(self).tree.content_of(id as int),
            )) ==> *final(self) == *old(self),
            (old(self).tree.present(id as int) && can_listen(
                old(self).tree.content_of(id as int),
            )) ==> {
                &&& final(self).tree.nodes@.len() == old(self).tree.nodes@.len()
                &&& (forall|k: int| final(self).tree.present(k) == old(self).tree.present(k))
                &&& (forall|k: int|
                    old(self).tree.present(k) && k != id ==> final(self).tree.node_of(k) == old(
                        self,
                    ).tree.node_of(k))
                &&& final(self).tree.parent_of(id as int) == old(self).tree.parent_of(id as int)
                &&& final(self).tree.kids(id as int) == old(self).tree.kids(id as int)
                &&& final(self).tree.height_of(id as int) == old(self).tree.height_of(id as int)
                &&& listeners_of(final(self).tree.content_of(id as int)) == listeners_of(
                    old(self).tree.content_of(id as int),
                ).insert(event@)
                &&& (forall|e: Seq<char>, n: usize|
                    final(self).is_listening(e, n) == (old(self).is_listening(e, n) || (e
                        == event@ && n == id)))
                &&& final(self).passes() == old(self).passes()
                &&& final(self).dirty_nodes.pending_passes() == passes_marked(
                    old(self).dirty_nodes.pending_passes(),
                    id,
                    interested_ids(old(self).passes(), mv_listeners()),
                )
                &&& final(self).dirty_nodes.pending_masks() == mask_marked(
                    old(self).dirty_nodes.pending_masks(),
                    id,
                    mv_listeners(),
                )
                &&& final(self).events@ == old(self).events@
            },
    {
        let ok = match self.tree.content(id) {
            Some(c) => match c {
                NodeType::Placeholder => false,
                _ => true,
            },
            None => false,
        };
        if !ok {
            return ;
        }
        let ev = event.to_owned();
        let mask = NodeMask::new_listeners();
        self.dirty_nodes.mark_dirty(id, mask);
        let ghost mid = *self;
        match &mut self.tree.nodes[id] {
            Some(node) => {
                match &mut node.content {
                    NodeType::Element(e) => {
                        crate::node::insert_string_unique(&mut e.listeners, ev.clone());
                    },
                    NodeType::Text(t) => {
                        crate::node::insert_string_unique(&mut t.listeners, ev.clone());
                    },
                    NodeType::Placeholder => {},
                }
            },
            None => {},
        }
        proof {
            assert(self.tree.node_of(id as int).parent == old(self).tree.node_of(
                id as int,
            ).parent);
            assert(listeners_of(self.tree.content_of(id as int)) =~= listeners_of(
                old(self).tree.content_of(id as int),
            ).insert(ev@));
            Tree::lemma_content_swap_wf(old(self).tree, self.tree, id as int);
        }
        idx_add(&mut self.nodes_listening, &ev, id);
        proof {
            assert(self.index_wf()) by {
                assert forall|i: int, j: int|
                    0 <= i < self.nodes_listening@.len() && 0 <= j
                        < self.nodes_listening@[i].1@.len() implies {
                    let n = #[trigger] self.nodes_listening@[i].1@[j];
                    &&& self.tree.present(n as int)
                    &&& listeners_of(self.tree.content_of(n as int)).contains(
                        self.nodes_listening@[i].0@,
                    )
                } by {
                    let n = self.nodes_listening@[i].1@[j];
                    let e = self.nodes_listening@[i].0@;
                    assert(self.nodes_listening@[i].1@.contains(n));
                    assert(self.is_listening(e, n));
                    if old(self).is_listening(e, n) {
                        let q = choose|q: int|
                            0 <= q < old(self).nodes_listening@.len() && (#[trigger] old(
                                self,
                            ).nodes_listening@[q]).0@ == e && old(self).nodes_listening@[q].1@
                                .contains(n);
                        let w = choose|w: int|
                            0 <= w < old(self).nodes_listening@[q].1@.len() && old(
                                self,
                            ).nodes_listening@[q].1@[w] == n;
                        assert(old(self).tree.present(n as int));
                        assert(listeners_of(old(self).tree.content_of(n as int)).contains(e));
                    }
                }
                assert forall|n: int, e: Seq<char>|
                    self.tree.present(n) && #[trigger] listeners_of(
                        self.tree.content_of(n),
                    ).contains(e) implies self.is_listening(e, n as usize) by {
                    assert(self.tree.nodes@.len() <= usize::MAX) by {
                        assert(self.tree.nodes.len() == self.tree.nodes@.len());
                    }
                    assert((n as usize) as int == n);
                    assert(old(self).tree.present(n));
                    if n == id {
                        if e != ev@ {
                            assert(listeners_of(old(self).tree.content_of(n)).contains(e));
                            assert(old(self).is_listening(e, n as usize));
                        }
                    } else {
                        assert(listeners_of(old(self).tree.content_of(n)).contains(e));
                        assert(old(self).is_listening(e, n as usize));
                    }
                }
            }
        }
    }

    /// Strike `event` from the node's listener set and the index; the
    /// listener facet alone is marked dirty.
    pub fn remove_event_listener(&mut self, id: usize, event: &str)
        requires
            old(self).wf(),
        ensures
            final(self).wf(),
            !(old(self).tree.present(id as int) && can_listen(
                old(self).tree.content_of(id as int),
            )) ==> *final(self) == *old(self),
            (old(self).tree.present(id as int) && can_listen(
                old(self).tree.content_of(id as int),
            )) ==> {
                &&& final(self).tree.nodes@.len() == old(self).tree.nodes@.len()
                &&& (forall|k: int| final(self).tree.present(k) == old(self).tree.present(k))
                &&& (forall|k: int|
                    old(self).tree.present(k) && k != id ==> final(self).tree.node_of(k) == old(
                        self,
                    ).tree.node_of(k))
                &&& final(self).tree.parent_of(id as int) == old(self).tree.parent_of(id as int)
                &&& final(self).tree.kids(id as int) == old(self).tree.kids(id as int)
                &&& final(self).tree.height_of(id as int) == old(self).tree.height_of(id as int)
                &&& listeners_of(final(self).tree.content_of(id as int)) == listeners_of(
                    old(self).tree.content_of(id as int),
                ).remove(event@)
                &&& (forall|e: Seq<char>, n: usize|
                    final(self).is_listening(e, n) == (old(self).is_listening(e, n) && !(e
                        == event@ && n == id)))
                &&& final(self).passes() == old(self).passes()
                &&& final(self).dirty_nodes.pending_passes() == passes_marked(
                    old(self).dirty_nodes.pending_passes(),
                    id,
                    interested_ids(old(self).passes(), mv_listeners()),
                )
                &&& final(self).dirty_nodes.pending_masks() == mask_marked(
                    old(self).dirty_nodes.pending_masks(),
                    id,
                    mv_listeners(),
                )
                &&& final(self).events@ == old(self).events@
            },
    {
        let ok = match self.tree.content(id) {
            Some(c) => match c {
                NodeType::Placeholder => false,
                _ => true,
            },
            None => false,
        };
        if !ok {
            return ;
        }
        let ev = event.to_owned();
        let mask = NodeMask::new_listeners();
        self.dirty_nodes.mark_dirty(id, mask);
        match &mut self.tree.nodes[id] {
            Some(node) => {
                match &mut node.content {
                    NodeType::Element(e) => {
                        crate::node::remove_string(&mut e.listeners, &ev);
                    },
                    NodeType::Text(t) => {
                        crate::node::remove_string(&mut t.listeners, &ev);
                    },
                    NodeType::Placeholder => {},
                }
            },
            None => {},
        }
        proof {
            assert(self.tree.node_of(id as int).parent == old(self).tree.node_of(
                id as int,
            ).parent);
            assert(listeners_of(self.tree.content_of(id as int)) =~= listeners_of(
                old(self).tree.content_of(id as int),
            ).remove(ev@));
            Tree::lemma_content_swap_wf(old(self).tree, self.tree, id as int);
        }
        idx_remove(&mut self.nodes_listening, &ev, id);
        proof {
            assert(self.index_wf()) by {
                assert forall|i: int, j: int|
                    0 <= i < self.nodes_listening@.len() && 0 <= j
                        < self.nodes_listening@[i].1@.len() implies {
                    let n = #[trigger] self.nodes_listening@[i].1@[j];
                    &&& self.tree.present(n as int)
                    &&& listeners_of(self.tree.content_of(n as int)).contains(
                        self.nodes_listening@[i].0@,
                    )
                } by {
                    let n = self.nodes_listening@[i].1@[j];
                    let e = self.nodes_listening@[i].0@;
                    assert(self.nodes_listening@[i].1@.contains(n));
                    assert(self.is_listening(e, n));
                    assert(old(self).is_listening(e, n) && !(e == ev@ && n == id));
                    let q = choose|q: int|
                        0 <= q < old(self).nodes_listening@.len() && (#[trigger] old(
                            self,
                        ).nodes_listening@[q]).0@ == e && old(self).nodes_listening@[q].1@
                            .contains(n);
                    let w = choose|w: int|
                        0 <= w < old(self).nodes_listening@[q].1@.len() && old(
                            self,
                        ).nodes_listening@[q].1@[w] == n;
                    assert(old(self).tree.present(n as int));
                    assert(listeners_of(old(self).tree.content_of(n as int)).contains(e));
                }
                assert forall|n: int, e: Seq<char>|
                    self.tree.present(n) && #[trigger] listeners_of(
                        self.tree.content_of(n),
                    ).contains(e) implies self.is_listening(e, n as usize) by {
                    assert(self.tree.nodes@.len() <= usize::MAX) by {
                        assert(self.tree.nodes.len() == self.tree.nodes@.len());
                    }
                    assert((n as usize) as int == n);
                    assert(old(self).tree.present(n));
                    if n == id {
                        assert(e != ev@);
                        assert(listeners_of(old(self).tree.content_of(n)).contains(e));
                    } else {
                        assert(listeners_of(old(self).tree.content_of(n)).contains(e));
                    }
                    assert(old(self).is_listening(e, n as usize));
                }
            }
        }
    }

    /// Does `a` come before `b` in bottom-up dispatch order: deeper nodes
    /// first, identity as the deterministic tie-break.
    pub open spec fn dispatch_before(self, a: usize, b: usize) -> bool {
        ||| self.tree.height_of(a as int) > self.tree.height_of(b as int)
        ||| (self.tree.height_of(a as int) == self.tree.height_of(b as int) && a < b)
    }

    /// All nodes listening for `event`, deepest first; nodes of equal
    /// height come in identity order.
    pub fn get_listening_sorted(&self, event: &str) -> (r: Vec<usize>)
        requires
            self.wf(),
        ensures
            r@.no_duplicates(),
            forall|n: usize| #[trigger] r@.contains(n) == self.is_listening(event@, n),
            forall|i: int| 0 <= i < r@.len() ==> self.tree.present(#[trigger] r@[i] as int),
            forall|i: int, j: int|
                0 <= i < j < r@.len() ==> self.dispatch_before(r@[i], r@[j]),
    {
        let ev = event.to_owned();
        let mut src: Vec<usize> = match idx_lookup(&self.nodes_listening, &ev) {
            Some(i) => copy_usizes(&self.nodes_listening[i].1),
            None => Vec::new(),
        };
        proof {
            assert forall|n: usize| #[trigger] src@.contains(n) == self.is_listening(
                ev@,
                n,
            ) by {
                if src@.contains(n) {
                    let q = choose|q: int| 0 <= q < src@.len() && src@[q] == n;
                }
                if self.is_listening(ev@, n) {
                    let q = choose|q: int|
                        0 <= q < self.nodes_listening@.len() && (
                        #[trigger] self.nodes_listening@[q]).0@ == ev@
                            && self.nodes_listening@[q].1@.contains(n);
                }
            }
            assert forall|i: int| 0 <= i < src@.len() implies self.tree.present(
                #[trigger] src@[i] as int,
            ) by {
                assert(src@.contains(src@[i]));
                let q = choose|q: int|
                    0 <= q < self.nodes_listening@.len() && (
                    #[trigger] self.nodes_listening@[q]).0@ == ev@
                        && self.nodes_listening@[q].1@.contains(src@[i]);
                let w = choose|w: int|
                    0 <= w < self.nodes_listening@[q].1@.len() && self.nodes_listening@[q].1@[w]
                        == src@[i];
            }
        }
        let mut out: Vec<usize> = Vec::new();
        while src.len() > 0
            invariant
                self.wf(),
                out@.no_duplicates(),
                src@.no_duplicates(),
                forall|n: usize| !(out@.contains(n) && src@.contains(n)),
                forall|n: usize|
                    (out@.contains(n) || src@.contains(n)) == #[trigger] self.is_listening(
                        ev@,
                        n,
                    ),
                forall|i: int| 0 <= i < out@.len() ==> self.tree.present(#[trigger] out@[i] as int),
                forall|i: int| 0 <= i < src@.len() ==> self.tree.present(#[trigger] src@[i] as int),
                forall|i: int, j: int|
                    0 <= i < j < out@.len() ==> self.dispatch_before(out@[i], out@[j]),
                forall|i: int, j: int|
                    0 <= i < out@.len() && 0 <= j < src@.len() ==> self.dispatch_before(
                        out@[i],
                        src@[j],
                    ),
            decreases src@.len(),
        {
            let mut best: usize = 0;
            let mut j: usize = 1;
            while j < src.len()
                invariant
                    self.wf(),
                    src@.len() > 0,
                    best < j <= src@.len() || (best == 0 && j <= src@.len()),
                    best < src@.len(),
                    forall|q: int|
                        0 <= q < j && q != best ==> self.dispatch_before(
                            src@[best as int],
                            #[trigger] src@[q],
                        ),
                    forall|i: int|
                        0 <= i < src@.len() ==> self.tree.present(#[trigger] src@[i] as int),
                    src@.no_duplicates(),
                decreases src@.len() - j,
            {
                let hb = match self.tree.height(src[best]) {
                    Some(h) => h,
                    None => 0,
                };
                let hj = match self.tree.height(src[j]) {
                    Some(h) => h,
                    None => 0,
                };
                if hj > hb || (hj == hb && src[j] < src[best]) {
                    best = j;
                }
                j += 1;
            }
            let ghost srcpre = src@;
            let ghost outpre = out@;
            let x = src.remove(best);
            out.push(x);
            proof {
                assert(x == srcpre[best as int]);
                assert(srcpre.contains(x));
                crate::tree::lemma_remove_membership(srcpre, best as int, x);
                assert(!outpre.contains(x));
                assert(out@ == outpre.push(x));
                assert(out@.no_duplicates()) by {
                    assert forall|a: int, b: int|
                        0 <= a < b < out@.len() implies out@[a] != out@[b] by {
                        if b == out@.len() - 1 {
                            assert(out@[a] == outpre[a]);
                            assert(outpre.contains(outpre[a]));
                        }
                    }
                }
                assert(src@.no_duplicates()) by {
                    assert forall|a: int, b: int|
                        0 <= a < b < src@.len() implies src@[a] != src@[b] by {
                        let sa = if a < best {
                            a
                        } else {
                            a + 1
                        };
                        let sb = if b < best {
                            b
                        } else {
                            b + 1
                        };
                        assert(src@[a] == srcpre[sa] && src@[b] == srcpre[sb]);
                    }
                }
                assert forall|n: usize| #[trigger] src@.contains(n) implies srcpre.contains(n)
                    && n != x by {
                    crate::tree::lemma_remove_membership(srcpre, best as int, n);
                }
                assert forall|n: usize|
                    (out@.contains(n) || src@.contains(n)) == #[trigger] self.is_listening(
                        ev@,
                        n,
                    ) by {
                    crate::tree::lemma_remove_membership(srcpre, best as int, n);
                    if out@.contains(n) {
                        let q = choose|q: int| 0 <= q < out@.len() && out@[q] == n;
                        if q < out@.len() - 1 {
                            assert(outpre[q] == n);
                            assert(outpre.contains(n));
                        } else {
                            assert(n == x);
                        }
                    }
                    if self.is_listening(ev@, n) {
                        assert(outpre.contains(n) || srcpre.contains(n));
                        if outpre.contains(n) {
                            let q = choose|q: int| 0 <= q < outpre.len() && outpre[q] == n;
                            assert(out@[q] == n);
                            assert(out@.contains(n));
                        } else {
                            if n == x {
                                assert(out@[out@.len() - 1] == x);
                                assert(out@.contains(n));
                            }
                        }
                    }
                }
                assert forall|i: int| 0 <= i < src@.len() implies self.tree.present(
                    #[trigger] src@[i] as int,
                ) by {
                    let sa = if i < best {
                        i
                    } else {
                        i + 1
                    };
                    assert(src@[i] == srcpre[sa]);
                }
                assert forall|i: int, j2: int|
                    0 <= i < out@.len() && 0 <= j2 < src@.len() implies self.dispatch_before(
                    out@[i],
                    src@[j2],
                ) by {
                    let sa = if j2 < best {
                        j2
                    } else {
                        j2 + 1
                    };
                    assert(src@[j2] == srcpre[sa]);
                    if i == out@.len() - 1 {
                        assert(out@[i] == x);
                        assert(self.dispatch_before(srcpre[best as int], srcpre[sa]));
                    } else {
                        assert(srcpre.contains(srcpre[sa]));
                    }
                }
            }
        }
        out
    }

    /// Remove a node and its whole subtree. Every removed node leaves the
    /// listener index; removed notifications are recorded parent before
    /// children, each exactly once, at the moment the node is still in
    /// place; the old parent gets a child-dependant mark; then the subtree
    /// leaves the storage. The root is exempt; a dead identity changes
    /// nothing. Note that a dispatcher draining the log after this call
    /// reads the notifications only once the subtree is gone; a watcher
    /// that must still see the dying node has to drain the log before the
    /// removal is asked for.
    #[verifier::rlimit(100)]
    pub fn remove(&mut self, id: usize)
        requires
            old(self).wf(),
        ensures
            final(self).wf(),
            !(old(self).tree.present(id as int) && id != 0) ==> *final(self) == *old(self),
            (old(self).tree.present(id as int) && id != 0) ==> {
                &&& (forall|k: int|
                    final(self).tree.present(k) == (old(self).tree.present(k) && !old(
                        self,
                    ).tree.has_ancestor(k, id as int)))
                &&& (forall|k: int|
                    final(self).tree.present(k) ==> final(self).tree.parent_of(k) == old(
                        self,
                    ).tree.parent_of(k) && final(self).tree.height_of(k) == old(
                        self,
                    ).tree.height_of(k) && final(self).tree.content_of(k) == old(
                        self,
                    ).tree.content_of(k))
                &&& (forall|e: Seq<char>, n: usize|
                    final(self).is_listening(e, n) == (old(self).is_listening(e, n) && !old(
                        self,
                    ).tree.has_ancestor(n as int, id as int)))
                &&& final(self).passes() == old(self).passes()
                &&& final(self).dirty_nodes.pending_passes() == (match old(
                    self,
                ).tree.parent_of(id as int) {
                    Some(p) => passes_marked(
                        old(self).dirty_nodes.pending_passes(),
                        p,
                        child_dependant_ids(old(self).passes()),
                    ),
                    None => old(self).dirty_nodes.pending_passes(),
                })
                &&& final(self).dirty_nodes.pending_masks() == old(
                    self,
                ).dirty_nodes.pending_masks()
                &&& final(self).events@.len() > old(self).events@.len()
                &&& final(self).events@.subrange(0, old(self).events@.len() as int) == old(
                    self,
                ).events@
                &&& final(self).events@[old(self).events@.len() as int] == WatchEvent::Removed(
                    id,
                )
                &&& (forall|i: int|
                    old(self).events@.len() <= i < final(self).events@.len()
                        ==> match #[trigger] final(self).events@[i] {
                        WatchEvent::Removed(n) => old(self).tree.present(n as int) && old(
                            self,
                        ).tree.has_ancestor(n as int, id as int),
                        _ => false,
                    })
                &&& (forall|n: int|
                    old(self).tree.present(n) && old(self).tree.has_ancestor(n, id as int)
                        ==> exists|i: int|
                        old(self).events@.len() <= i < final(self).events@.len()
                            && final(self).events@[i] == WatchEvent::Removed(n as usize))
                &&& (forall|i: int, j: int|
                    old(self).events@.len() <= i < j < final(self).events@.len()
                        ==> final(self).events@[i] != final(self).events@[j])
                &&& (forall|i: int|
                    old(self).events@.len() <= i < final(self).events@.len()
                        ==> match #[trigger] final(self).events@[i] {
                        WatchEvent::Removed(n) => n == id || exists|j: int|
                            old(self).events@.len() <= j < i && final(self).events@[j]
                                == WatchEvent::Removed(old(self).tree.parent_get(n as int)),
                        _ => true,
                    })
            },
    {
        if !(self.tree.contains(id) && id != 0) {
            return ;
        }
        let ghost pre = *self;
        let list = self.tree.subtree_ids(id);
        let mut t: usize = 0;
        while t < list.len()
            invariant
                pre.wf(),
                pre.tree.present(id as int),
                t <= list@.len(),
                self.tree == pre.tree,
                self.dirty_nodes == pre.dirty_nodes,
                list@.no_duplicates(),
                forall|i: int|
                    0 <= i < list@.len() ==> pre.tree.present(#[trigger] list@[i] as int)
                        && pre.tree.has_ancestor(list@[i] as int, id as int),
                forall|i: int, j: int|
                    0 <= i < j < self.nodes_listening@.len() ==> self.nodes_listening@[i].0@
                        != self.nodes_listening@[j].0@,
                forall|i: int|
                    0 <= i < self.nodes_listening@.len() ==> (
                    #[trigger] self.nodes_listening@[i]).1@.no_duplicates(),
                forall|e: Seq<char>, n: usize|
                    self.is_listening(e, n) == (pre.is_listening(e, n) && !list@.subrange(
                        0,
                        t as int,
                    ).contains(n)),
                self.events@.len() == pre.events@.len() + t,
                self.events@.subrange(0, pre.events@.len() as int) == pre.events@,
                forall|i: int|
                    0 <= i < t ==> self.events@[pre.events@.len() + i] == WatchEvent::Removed(
                        list@[i],
                    ),
            decreases list@.len() - t,
        {
            let n = list[t];
            let ls: Vec<String> = match self.tree.content(n) {
                Some(c) => match c {
                    NodeType::Element(e) => crate::node::clone_strings(&e.listeners),
                    NodeType::Text(tx) => crate::node::clone_strings(&tx.listeners),
                    NodeType::Placeholder => Vec::new(),
                },
                None => Vec::new(),
            };
            proof {
                assert(str_set(ls@) =~= listeners_of(pre.tree.content_of(n as int)));
            }
            let ghost at_start = self.nodes_listening@;
            proof {
                assert(forall|e: Seq<char>, m: usize|
                    listed(at_start, e, m) == (pre.is_listening(e, m) && !list@.subrange(
                        0,
                        t as int,
                    ).contains(m)));
            }
            let mut u: usize = 0;
            while u < ls.len()
                invariant
                    u <= ls@.len(),
                    self.tree == pre.tree,
                    self.dirty_nodes == pre.dirty_nodes,
                    self.events@.len() == pre.events@.len() + t,
                    t <= list@.len(),
                    self.events@.subrange(0, pre.events@.len() as int) == pre.events@,
                    forall|i: int|
                        0 <= i < t ==> self.events@[pre.events@.len() + i] == WatchEvent::Removed(
                            list@[i],
                        ),
                    forall|i: int, j: int|
                        0 <= i < j < self.nodes_listening@.len() ==> self.nodes_listening@[i].0@
                            != self.nodes_listening@[j].0@,
                    forall|i: int|
                        0 <= i < self.nodes_listening@.len() ==> (
                        #[trigger] self.nodes_listening@[i]).1@.no_duplicates(),
                    forall|e: Seq<char>, m: usize|
                        listed(self.nodes_listening@, e, m) == (listed(at_start, e, m) && !(m == n
                            && str_set(ls@.subrange(0, u as int)).contains(e))),
                decreases ls@.len() - u,
            {
                let ghost mid_idx = self.nodes_listening@;
                idx_remove(&mut self.nodes_listening, &ls[u], n);
                proof {
                    crate::node::lemma_str_set_snoc(ls@, u as int);
                    assert(forall|e: Seq<char>, m: usize|
                        listed(mid_idx, e, m) == (listed(at_start, e, m) && !(m == n && str_set(
                            ls@.subrange(0, u as int),
                        ).contains(e))));
                    assert(forall|e: Seq<char>, m: usize|
                        listed(self.nodes_listening@, e, m) == (listed(mid_idx, e, m) && !(e
                            == ls@[u as int]@ && m == n)));
                    assert forall|e: Seq<char>, m: usize|
                        listed(self.nodes_listening@, e, m) == (listed(at_start, e, m) && !(m == n
                            && str_set(ls@.subrange(0, u + 1)).contains(e))) by {
                        assert(str_set(ls@.subrange(0, u + 1)) == str_set(
                            ls@.subrange(0, u as int),
                        ).insert(ls@[u as int]@));
                        assert(listed(mid_idx, e, m) == (listed(at_start, e, m) && !(m == n
                            && str_set(ls@.subrange(0, u as int)).contains(e))));
                        assert(listed(self.nodes_listening@, e, m) == (listed(mid_idx, e, m) && !(
                        e == ls@[u as int]@ && m == n)));
                    }
                }
                u += 1;
            }
            let ghost purged = self.nodes_listening@;
            proof {
                assert(ls@.subrange(0, u as int) =~= ls@);
                assert forall|e: Seq<char>, m: usize|
                    listed(purged, e, m) == (listed(at_start, e, m) && !(m == n && str_set(
                        ls@,
                    ).contains(e))) by {
                    assert(listed(self.nodes_listening@, e, m) == (listed(at_start, e, m) && !(m
                        == n && str_set(ls@.subrange(0, u as int)).contains(e))));
                }
            }
            self.events.push(WatchEvent::Removed(n));
            proof {
                assert(self.nodes_listening@ == purged);
                assert forall|e: Seq<char>, m: usize|
                    self.is_listening(e, m) == (pre.is_listening(e, m) && !list@.subrange(
                        0,
                        t + 1,
                    ).contains(m)) by {
                    assert(listed(purged, e, m) == (listed(at_start, e, m) && !(m == n
                        && str_set(ls@).contains(e))));
                    assert(listed(self.nodes_listening@, e, m) == listed(purged, e, m));
                    assert(listed(at_start, e, m) == (pre.is_listening(e, m) && !list@.subrange(
                        0,
                        t as int,
                    ).contains(m)));
                    if m == n {
                        if listed(at_start, e, m) {
                            assert(pre.is_listening(e, m));
                            let q = choose|q: int|
                                0 <= q < pre.nodes_listening@.len() && (
                                #[trigger] pre.nodes_listening@[q]).0@ == e
                                    && pre.nodes_listening@[q].1@.contains(m);
                            let w = choose|w: int|
                                0 <= w < pre.nodes_listening@[q].1@.len()
                                    && pre.nodes_listening@[q].1@[w] == m;
                            assert(pre.tree.present(m as int));
                            assert(listeners_of(pre.tree.content_of(m as int)).contains(e));
                            assert(str_set(ls@).contains(e));
                        }
                        assert(list@.subrange(0, t + 1).contains(m)) by {
                            assert(list@.subrange(0, t + 1)[t as int] == n);
                        }
                    } else {
                        assert((!list@.subrange(0, t as int).contains(m)) == (!list@.subrange(
                            0,
                            t + 1,
                        ).contains(m))) by {
                            if list@.subrange(0, t as int).contains(m) {
                                let w = choose|w: int|
                                    0 <= w < t && #[trigger] list@.subrange(0, t as int)[w]
                                        == m;
                                assert(list@.subrange(0, t + 1)[w] == m);
                            }
                            if list@.subrange(0, t + 1).contains(m) {
                                let w = choose|w: int|
                                    0 <= w < t + 1 && #[trigger] list@.subrange(0, t + 1)[w]
                                        == m;
                                assert(w != t);
                                assert(list@.subrange(0, t as int)[w] == m);
                            }
                        }
                    }
                }
                assert(self.events@.subrange(0, pre.events@.len() as int) =~= pre.events@);
            }
            t += 1;
        }
        let ghost idxdone = self.nodes_listening@;
        proof {
            assert(list@.subrange(0, t as int) =~= list@);
            assert forall|e: Seq<char>, m: usize|
                listed(idxdone, e, m) == (pre.is_listening(e, m) && !list@.contains(m)) by {
                assert(self.is_listening(e, m) == (pre.is_listening(e, m) && !list@.subrange(
                    0,
                    t as int,
                ).contains(m)));
            }
        }
        match self.tree.parent_id(id) {
            Some(p) => {
                self.dirty_nodes.mark_child_changed(p);
            },
            None => {},
        }
        let ghost before_drop = *self;
        self.tree.remove_subtree(id);
        proof {
            assert(self.nodes_listening@ == idxdone);
            assert forall|e: Seq<char>, n: usize|
                self.is_listening(e, n) == (pre.is_listening(e, n) && !pre.tree.has_ancestor(
                    n as int,
                    id as int,
                )) by {
                assert(listed(idxdone, e, n) == (pre.is_listening(e, n) && !list@.contains(n)));
                if pre.is_listening(e, n) {
                    let q = choose|q: int|
                        0 <= q < pre.nodes_listening@.len() && (
                        #[trigger] pre.nodes_listening@[q]).0@ == e && pre.nodes_listening@[q].1@
                            .contains(n);
                    let w = choose|w: int|
                        0 <= w < pre.nodes_listening@[q].1@.len() && pre.nodes_listening@[q].1@[w]
                            == n;
                    assert(pre.tree.present(n as int));
                    if pre.tree.has_ancestor(n as int, id as int) {
                        assert(list@.contains(n));
                    }
                    if list@.contains(n) {
                        let v = choose|v: int| 0 <= v < list@.len() && list@[v] == n;
                        assert(pre.tree.has_ancestor(list@[v] as int, id as int));
                    }
                }
            }
            lemma_remove_index_wf(pre, *self, id);
            assert forall|n: int|
                pre.tree.present(n) && pre.tree.has_ancestor(n, id as int) implies exists|i: int|
                pre.events@.len() <= i < self.events@.len() && self.events@[i]
                    == WatchEvent::Removed(n as usize) by {
                assert(list@.contains(n as usize));
                let v = choose|v: int| 0 <= v < list@.len() && list@[v] == n as usize;
                assert(self.events@[pre.events@.len() + v] == WatchEvent::Removed(n as usize));
            }
            assert forall|i: int|
                pre.events@.len() <= i < self.events@.len() implies match (
            #[trigger] self.events@[i]) {
                WatchEvent::Removed(n) => pre.tree.present(n as int) && pre.tree.has_ancestor(
                    n as int,
                    id as int,
                ),
                _ => false,
            } by {
                assert(self.events@[i] == WatchEvent::Removed(list@[i - pre.events@.len()]));
            }
            assert forall|i: int, j: int|
                pre.events@.len() <= i < j < self.events@.len() implies self.events@[i]
                != self.events@[j] by {
                assert(self.events@[i] == WatchEvent::Removed(list@[i - pre.events@.len()]));
                assert(self.events@[j] == WatchEvent::Removed(list@[j - pre.events@.len()]));
            }
            assert forall|i: int|
                pre.events@.len() <= i < self.events@.len() implies match (
            #[trigger] self.events@[i]) {
                WatchEvent::Removed(n) => n == id || exists|j: int|
                    pre.events@.len() <= j < i && self.events@[j] == WatchEvent::Removed(
                        pre.tree.parent_get(n as int),
                    ),
                _ => true,
            } by {
                let k = i - pre.events@.len();
                assert(self.events@[i] == WatchEvent::Removed(list@[k]));
                let n = list@[k];
                if n != id {
                    assert(k != 0);
                    assert(list@.subrange(0, k).contains(pre.tree.parent_get(n as int)));
                    let w = choose|w: int|
                        0 <= w < k && #[trigger] list@.subrange(0, k)[w] == pre.tree.parent_get(
                            n as int,
                        );
                    assert(list@[w] == pre.tree.parent_get(n as int));
                    assert(self.events@[pre.events@.len() + w] == WatchEvent::Removed(
                        pre.tree.parent_get(n as int),
                    ));
                }
            }
        }
    }

    /// Whether swapping `new_id` into `old_id`'s place is admissible:
    /// both live and neither the root, the old node attached, the new node
    /// outside the discarded subtree, no cycle through the parent, and
    /// every re-homed height still in range.
    pub open spec fn replace_ok(self, old_id: usize, new_id: usize) -> bool {
        &&& self.tree.present(old_id as int)
        &&& old_id != 0
        &&& self.tree.present(new_id as int)
        &&& new_id != 0
        &&& new_id != old_id
        &&& self.tree.parent_of(old_id as int) is Some
        &&& !self.tree.has_ancestor(new_id as int, old_id as int)
        &&& !self.tree.has_ancestor(
            self.tree.parent_get(old_id as int) as int,
            new_id as int,
        )
        &&& (forall|n: int|
            self.tree.present(n) && #[trigger] self.tree.has_ancestor(n, new_id as int)
                ==> self.tree.height_of(self.tree.parent_get(old_id as int) as int) + 1
                + self.tree.height_of(n) - self.tree.height_of(new_id as int) <= u16::MAX)
    }

    /// Swap `new_id` (with its subtree) into `old_id`'s position and drop
    /// the old subtree. The old parent gets a child-dependant mark, the
    /// new node a parent-dependant mark; the discarded nodes leave the
    /// listener index, and each is reported removed, the replaced node
    /// first. An inadmissible request changes nothing.
    #[verifier::rlimit(100)]
    pub fn replace(&mut self, old_id: usize, new_id: usize) -> (ok: bool)
        requires
            old(self).wf(),
        ensures
            final(self).wf(),
            ok == old(self).replace_ok(old_id, new_id),
            !ok ==> *final(self) == *old(self),
            ok ==> {
                &&& (forall|k: int|
                    final(self).tree.present(k) == (old(self).tree.present(k) && !old(
                        self,
                    ).tree.has_ancestor(k, old_id as int)))
                &&& (forall|k: int|
                    final(self).tree.present(k) ==> final(self).tree.content_of(k) == old(
                        self,
                    ).tree.content_of(k))
                &&& final(self).tree.parent_of(new_id as int) == Some(
                    old(self).tree.parent_get(old_id as int),
                )
                &&& (forall|k: int|
                    final(self).tree.present(k) && k != new_id ==> final(self).tree.parent_of(k)
                        == old(self).tree.parent_of(k))
                &&& final(self).tree.kids(
                    old(self).tree.parent_get(old_id as int) as int,
                ).contains(new_id)
                &&& (forall|k: int|
                    final(self).tree.present(k) && old(self).tree.has_ancestor(k, new_id as int)
                        ==> final(self).tree.height_of(k) as int == old(self).tree.height_of(
                        old(self).tree.parent_get(old_id as int) as int,
                    ) + 1 + old(self).tree.height_of(k) - old(self).tree.height_of(
                        new_id as int,
                    ))
                &&& (forall|k: int|
                    final(self).tree.present(k) && !old(self).tree.has_ancestor(
                        k,
                        new_id as int,
                    ) ==> final(self).tree.height_of(k) == old(self).tree.height_of(k))
                &&& (forall|e: Seq<char>, n: usize|
                    final(self).is_listening(e, n) == (old(self).is_listening(e, n) && !old(
                        self,
                    ).tree.has_ancestor(n as int, old_id as int)))
                &&& final(self).passes() == old(self).passes()
                &&& final(self).dirty_nodes.pending_passes() == passes_marked(
                    passes_marked(
                        old(self).dirty_nodes.pending_passes(),
                        old(self).tree.parent_get(old_id as int),
                        child_dependant_ids(old(self).passes()),
                    ),
                    new_id,
                    parent_dependant_ids(old(self).passes()),
                )
                &&& final(self).dirty_nodes.pending_masks() == old(
                    self,
                ).dirty_nodes.pending_masks()
                &&& final(self).events@.len() > old(self).events@.len()
                &&& final(self).events@.subrange(0, old(self).events@.len() as int) == old(
                    self,
                ).events@
                &&& final(self).events@[old(self).events@.len() as int] == WatchEvent::Removed(
                    old_id,
                )
                &&& (forall|i: int|
                    old(self).events@.len() <= i < final(self).events@.len()
                        ==> match #[trigger] final(self).events@[i] {
                        WatchEvent::Removed(n) => old(self).tree.present(n as int) && old(
                            self,
                        ).tree.has_ancestor(n as int, old_id as int),
                        _ => false,
                    })
            },
    {
        if !(self.tree.contains(old_id) && old_id != 0 && self.tree.contains(new_id) && new_id
            != 0 && new_id != old_id) {
            return false;
        }
        let p = match self.tree.parent_id(old_id) {
            Some(p) => p,
            None => {
                return false;
            },
        };
        if self.tree.is_ancestor(new_id, old_id) {
            return false;
        }
        if self.tree.is_ancestor(p, new_id) {
            return false;
        }
        // Every height of the re-homed subtree must stay in range.
        let nlist = self.tree.subtree_ids(new_id);
        let new_h = match self.tree.height(new_id) {
            Some(h) => h,
            None => 0,
        };
        let p_h = match self.tree.height(p) {
            Some(h) => h,
            None => 0,
        };
        let mut maxh: u16 = new_h;
        let mut q: usize = 1;
        proof {
            assert(nlist@[0] == new_id);
        }
        let ghost mut ghost_wit: int = 0;
        while q < nlist.len()
            invariant
                self == old(self),
                old(self).wf(),
                old(self).tree.present(new_id as int),
                nlist@.len() >= 1,
                1 <= q <= nlist@.len(),
                forall|i: int|
                    0 <= i < nlist@.len() ==> old(self).tree.present(#[trigger] nlist@[i] as int)
                        && old(self).tree.has_ancestor(nlist@[i] as int, new_id as int),
                forall|i: int|
                    0 <= i < q ==> old(self).tree.height_of(#[trigger] nlist@[i] as int) <= maxh,
                0 <= ghost_wit < q,
                old(self).tree.height_of(nlist@[ghost_wit] as int) == maxh,
            decreases nlist@.len() - q,
        {
            let h = match self.tree.height(nlist[q]) {
                Some(h) => h,
                None => 0,
            };
            if h > maxh {
                maxh = h;
                proof {
                    ghost_wit = q as int;
                }
            }
            q += 1;
        }
        if !(p_h as u32 + 1 + maxh as u32 - new_h as u32 <= u16::MAX as u32) {
            proof {
                let w = nlist@[ghost_wit] as int;
                assert(old(self).tree.present(w) && old(self).tree.has_ancestor(
                    w,
                    new_id as int,
                ));
                assert(old(self).tree.height_of(p as int) + 1 + old(self).tree.height_of(w) - old(
                    self,
                ).tree.height_of(new_id as int) > u16::MAX);
            }
            return false;
        }
        proof {
            assert(old(self).replace_ok(old_id, new_id)) by {
                assert forall|n: int|
                    old(self).tree.present(n) && #[trigger] old(self).tree.has_ancestor(
                        n,
                        new_id as int,
                    ) implies old(self).tree.height_of(p as int) + 1 + old(self).tree.height_of(
                    n,
                ) - old(self).tree.height_of(new_id as int) <= u16::MAX by {
                    assert(nlist@.contains(n as usize));
                    let i = choose|i: int| 0 <= i < nlist@.len() && nlist@[i] == n as usize;
                    assert(old(self).tree.height_of(n) <= maxh);
                }
            }
        }
        // Where the old node sat under its parent.
        let idx = {
            let found = match self.tree.children_ids(p) {
                Some(v) => find_usize(&v, old_id),
                None => None,
            };
            match found {
                Some(i) => i,
                None => 0,
            }
        };
        proof {
            assert(old(self).tree.kids(p as int).contains(old_id));
            assert(old(self).tree.kids(p as int)[idx as int] == old_id);
        }
        self.remove(old_id);
        let ghost mid = *self;
        proof {
            // The parent and the incoming subtree survive the removal.
            old(self).tree.lemma_no_cycles(old_id as int);
            assert(mid.tree.present(p as int));
            assert(mid.tree.present(new_id as int));
            assert forall|k: int|
                mid.tree.present(k) && mid.tree.parent_of(k) is Some implies mid.tree.present(
                #[trigger] mid.tree.parent_get(k) as int,
            ) by {
                assert(mid.tree.node_ok(k));
            }
            Tree::lemma_ancestor_restrict(old(self).tree, mid.tree, p as int, new_id as int);
        }
        let ks = match self.tree.children_ids(p) {
            Some(v) => v,
            None => Vec::new(),
        };
        let anchor: Option<(usize, bool)> = if idx < ks.len() {
            let sib = ks[idx];
            if sib != new_id {
                Some((sib, false))
            } else {
                None
            }
        } else {
            None
        };
        proof {
            assert(mid.tree.attach_ok(p, new_id, anchor)) by {
                assert forall|n: int|
                    mid.tree.present(n) && #[trigger] mid.tree.has_ancestor(
                        n,
                        new_id as int,
                    ) implies mid.tree.height_of(p as int) + 1 + mid.tree.height_of(n)
                    - mid.tree.height_of(new_id as int) <= u16::MAX by {
                    Tree::lemma_ancestor_restrict(old(self).tree, mid.tree, n, new_id as int);
                    assert(old(self).tree.has_ancestor(n, new_id as int));
                }
                match anchor {
                    Some((sib, _)) => {
                        assert(mid.tree.kids(p as int).contains(sib)) by {
                            assert(ks@[idx as int] == sib);
                        }
                        assert(mid.tree.node_ok(p as int));
                    },
                    None => {},
                }
            }
        }
        let ok2 = self.tree.attach(p, new_id, anchor);
        proof {
            assert(ok2);
        }
        self.dirty_nodes.mark_parent_added_or_removed(new_id);
        proof {
            // Heights and the ancestor relation translate back to the
            // state before the removal.
            assert forall|k: int|
                self.tree.present(k) implies (old(self).tree.has_ancestor(k, new_id as int)
                    == mid.tree.has_ancestor(k, new_id as int)) by {
                assert(mid.tree.present(k));
                Tree::lemma_ancestor_restrict(old(self).tree, mid.tree, k, new_id as int);
            }
            lemma_index_wf_after_structural(mid, *self);
            assert(self.wf());
        }
        true
    }

    /// Drain the pending invalidation state for one resolution cycle: both
    /// accumulators are reset; every pending pass of every node still in
    /// the tree becomes a work item carrying the node's current height;
    /// entries whose node is gone are dropped. Work items come back in
    /// ascending height order, node and pass identity as tie-breaks; the
    /// pre-drain changed masks come back keyed by ascending node identity.
    pub fn update_state(&mut self) -> (r: (Vec<WorkItem>, Vec<(usize, NodeMask)>))
        requires
            old(self).wf(),
        ensures
            final(self).wf(),
            final(self).tree == old(self).tree,
            final(self).nodes_listening == old(self).nodes_listening,
            final(self).events == old(self).events,
            final(self).passes() == old(self).passes(),
            final(self).dirty_nodes.pending_passes() == Map::<usize, Set<u64>>::empty(),
            final(self).dirty_nodes.pending_masks() == Map::<usize, MaskView>::empty(),
            forall|w: WorkItem|
                #[trigger] r.0@.contains(w) == {
                    &&& old(self).dirty_nodes.pending_passes().dom().contains(w.node)
                    &&& old(self).dirty_nodes.pending_passes()[w.node].contains(w.pass)
                    &&& old(self).tree.present(w.node as int)
                    &&& w.height == old(self).tree.height_of(w.node as int)
                },
            r.0@.no_duplicates(),
            forall|i: int, j: int| 0 <= i < j < r.0@.len() ==> wi_before(r.0@[i], r.0@[j]),
            forall|i: int, j: int| 0 <= i < j < r.1@.len() ==> r.1@[i].0 < r.1@[j].0,
            forall|i: int|
                0 <= i < r.1@.len() ==> old(self).dirty_nodes.pending_masks().dom().contains(
                    (#[trigger] r.1@[i]).0,
                ) && r.1@[i].1@ == old(self).dirty_nodes.pending_masks()[r.1@[i].0],
            forall|k: usize|
                #[trigger] old(self).dirty_nodes.pending_masks().dom().contains(k)
                    ==> exists|i: int| 0 <= i < r.1@.len() && (#[trigger] r.1@[i]).0 == k,
    {
        let ghost pp0 = old(self).dirty_nodes.pending_passes();
        let ghost pm0 = old(self).dirty_nodes.pending_masks();
        let n = self.tree.nodes.len();
        let mut work: Vec<WorkItem> = Vec::new();
        let mut masks: Vec<(usize, NodeMask)> = Vec::new();
        let mut id: usize = 0;
        while id < n
            invariant
                old(self).wf(),
                n == self.tree.nodes@.len(),
                id <= n,
                self.tree == old(self).tree,
                self.nodes_listening == old(self).nodes_listening,
                self.events == old(self).events,
                self.dirty_nodes.passes == old(self).dirty_nodes.passes,
                pp0 == old(self).dirty_nodes.pending_passes(),
                pm0 == old(self).dirty_nodes.pending_masks(),
                forall|k: usize|
                    #[trigger] self.dirty_nodes.pending_passes().dom().contains(k) == (
                    pp0.dom().contains(k) && k >= id),
                forall|k: usize|
                    self.dirty_nodes.pending_passes().dom().contains(k)
                        ==> #[trigger] self.dirty_nodes.pending_passes()[k] == pp0[k],
                forall|k: usize|
                    #[trigger] self.dirty_nodes.pending_masks().dom().contains(k) == (
                    pm0.dom().contains(k) && k >= id),
                forall|k: usize|
                    self.dirty_nodes.pending_masks().dom().contains(k)
                        ==> #[trigger] self.dirty_nodes.pending_masks()[k] == pm0[k],
                forall|w: WorkItem|
                    #[trigger] work@.contains(w) == {
                        &&& w.node < id
                        &&& pp0.dom().contains(w.node)
                        &&& pp0[w.node].contains(w.pass)
                        &&& old(self).tree.present(w.node as int)
                        &&& w.height == old(self).tree.height_of(w.node as int)
                    },
                work@.no_duplicates(),
                forall|i: int, j: int| 0 <= i < j < masks@.len() ==> masks@[i].0 < masks@[j].0,
                forall|i: int| 0 <= i < masks@.len() ==> (#[trigger] masks@[i]).0 < id,
                forall|i: int|
                    0 <= i < masks@.len() ==> pm0.dom().contains((#[trigger] masks@[i]).0)
                        && masks@[i].1@ == pm0[masks@[i].0],
                forall|k: usize|
                    #[trigger] pm0.dom().contains(k) && k < id ==> exists|i: int|
                        0 <= i < masks@.len() && (#[trigger] masks@[i]).0 == k,
            decreases n - id,
        {
            let taken = self.dirty_nodes.take_pending_passes(id);
            match taken {
                Some(s) => {
                    if self.tree.contains(id) {
                        let h = match self.tree.height(id) {
                            Some(h) => h,
                            None => 0,
                        };
                        let pl = crate::fx::fx_set_to_vec(&s);
                        let ghost wpre = work@;
                        let mut u: usize = 0;
                        while u < pl.len()
                            invariant
                                u <= pl@.len(),
                                pl@.no_duplicates(),
                                forall|x: u64| pl@.contains(x) <==> pp0[id].contains(x),
                                pp0.dom().contains(id),
                                old(self).tree.present(id as int),
                                h == old(self).tree.height_of(id as int),
                                work@.len() == wpre.len() + u,
                                work@.subrange(0, wpre.len() as int) == wpre,
                                forall|i: int|
                                    0 <= i < u ==> work@[wpre.len() + i] == (WorkItem {
                                        pass: pl@[i],
                                        node: id,
                                        height: h,
                                    }),
                                forall|w: WorkItem|
                                    wpre.contains(w) ==> w.node < id,
                                forall|w: WorkItem|
                                    #[trigger] work@.contains(w) == (wpre.contains(w) || (w.node
                                        == id && w.height == h && exists|i: int|
                                        0 <= i < u && pl@[i] == w.pass)),
                                work@.no_duplicates(),
                            decreases pl@.len() - u,
                        {
                            let ghost wmid = work@;
                            work.push(WorkItem { pass: pl[u], node: id, height: h });
                            proof {
                                assert(work@.subrange(0, wpre.len() as int) =~= wpre);
                                assert forall|w: WorkItem|
                                    #[trigger] work@.contains(w) == (wpre.contains(w) || (w.node
                                        == id && w.height == h && exists|i: int|
                                        0 <= i < u + 1 && pl@[i] == w.pass)) by {
                                    if work@.contains(w) {
                                        let q = choose|q: int|
                                            0 <= q < work@.len() && work@[q] == w;
                                        if q < wmid.len() {
                                            assert(wmid.contains(w));
                                        } else {
                                            assert(w == (WorkItem {
                                                pass: pl@[u as int],
                                                node: id,
                                                height: h,
                                            }));
                                        }
                                    }
                                    if wpre.contains(w) {
                                        let q = choose|q: int|
                                            0 <= q < wpre.len() && wpre[q] == w;
                                        assert(work@[q] == w);
                                    }
                                    if w.node == id && w.height == h && exists|i: int|
                                        0 <= i < u + 1 && pl@[i] == w.pass {
                                        let i = choose|i: int| 0 <= i < u + 1 && pl@[i] == w.pass;
                                        if i < u {
                                            assert(wmid.contains(w));
                                            let q = choose|q: int|
                                                0 <= q < wmid.len() && wmid[q] == w;
                                            assert(work@[q] == w);
                                        } else {
                                            assert(work@[work@.len() - 1] == w);
                                        }
                                    }
                                }
                                assert(work@.no_duplicates()) by {
                                    assert forall|a: int, b: int|
                                        0 <= a < b < work@.len() implies work@[a] != work@[b] by {
                                        if b == work@.len() - 1 {
                                            if a < wpre.len() {
                                                assert(wpre.contains(wpre[a]));
                                                assert(work@[a] == wpre[a]);
                                            } else {
                                                assert(work@[a] == (WorkItem {
                                                    pass: pl@[a - wpre.len()],
                                                    node: id,
                                                    height: h,
                                                }));
                                            }
                                        }
                                    }
                                }
                            }
                            u += 1;
                        }
                        proof {
                            assert forall|w: WorkItem|
                                #[trigger] work@.contains(w) == {
                                    &&& w.node < id + 1
                                    &&& pp0.dom().contains(w.node)
                                    &&& pp0[w.node].contains(w.pass)
                                    &&& old(self).tree.present(w.node as int)
                                    &&& w.height == old(self).tree.height_of(w.node as int)
                                } by {
                                if work@.contains(w) && !wpre.contains(w) {
                                    assert(pl@.contains(w.pass)) by {
                                        let i = choose|i: int|
                                            0 <= i < pl@.len() && pl@[i] == w.pass;
                                    }
                                }
                                if !work@.contains(w) && w.node == id && pp0.dom().contains(
                                    w.node,
                                ) && pp0[w.node].contains(w.pass) && old(self).tree.present(
                                    w.node as int,
                                ) && w.height == old(self).tree.height_of(w.node as int) {
                                    assert(pl@.contains(w.pass));
                                    let i = choose|i: int| 0 <= i < pl@.len() && pl@[i] == w.pass;
                                    assert(work@.contains(w));
                                }
                            }
                        }
                    }
                },
                None => {},
            }
            let ghost mpre = masks@;
            let taken_mask = self.dirty_nodes.take_pending_mask(id);
            match taken_mask {
                Some(m) => {
                    masks.push((id, m));
                    proof {
                        assert forall|k: usize|
                            #[trigger] pm0.dom().contains(k) && k < id + 1 implies exists|i: int|
                            0 <= i < masks@.len() && (#[trigger] masks@[i]).0 == k by {
                            if k < id {
                                let i = choose|i: int|
                                    0 <= i < mpre.len() && (#[trigger] mpre[i]).0 == k;
                                assert(masks@[i].0 == k);
                            } else {
                                assert(masks@[masks@.len() - 1].0 == k);
                            }
                        }
                    }
                },
                None => {},
            }
            proof {
                assert forall|k: usize|
                    #[trigger] self.dirty_nodes.pending_passes().dom().contains(k) == (
                    pp0.dom().contains(k) && k >= id + 1) by {}
            }
            id += 1;
        }
        proof {
            assert(self.dirty_nodes.pending_passes() =~~= Map::<usize, Set<u64>>::empty()) by {
                assert forall|k: usize|
                    !self.dirty_nodes.pending_passes().dom().contains(k) by {
                    if self.dirty_nodes.pending_passes().dom().contains(k) {
                        assert(pp0.dom().contains(k) && k >= n);
                        assert((k as int) < old(self).tree.nodes@.len());
                    }
                }
            }
            assert(self.dirty_nodes.pending_masks() =~~= Map::<usize, MaskView>::empty()) by {
                assert forall|k: usize|
                    !self.dirty_nodes.pending_masks().dom().contains(k) by {
                    if self.dirty_nodes.pending_masks().dom().contains(k) {
                        assert(pm0.dom().contains(k) && k >= n);
                        assert((k as int) < old(self).tree.nodes@.len());
                    }
                }
            }
        }
        let sorted = sort_work(work);
        (sorted, masks)
    }

    /// Replace a node's tag; only the tag facet is marked. Anything but a
    /// live element changes nothing.
    pub fn set_tag(&mut self, id: usize, tag: String)
        requires
            old(self).wf(),
        ensures
            final(self).wf(),
            !(old(self).tree.present(id as int) && old(self).tree.content_of(id as int)
                is Element) ==> *final(self) == *old(self),
            (old(self).tree.present(id as int) && old(self).tree.content_of(id as int)
                is Element) ==> {
                &&& content_same_but_tag(
                    final(self).tree.content_of(id as int),
                    old(self).tree.content_of(id as int),
                )
                &&& final(self).tree.content_of(id as int)->Element_0.tag@ == tag@
                &&& same_but_one_content(*old(self), *final(self), id)
                &&& final(self).dirty_nodes.pending_passes() == passes_marked(
                    old(self).dirty_nodes.pending_passes(),
                    id,
                    interested_ids(old(self).passes(), crate::node_ref::mv_tag()),
                )
                &&& final(self).dirty_nodes.pending_masks() == mask_marked(
                    old(self).dirty_nodes.pending_masks(),
                    id,
                    crate::node_ref::mv_tag(),
                )
            },
    {
        let ok = match self.tree.content(id) {
            Some(c) => matches!(c, NodeType::Element(_)),
            None => false,
        };
        if !ok {
            return ;
        }
        self.dirty_nodes.mark_dirty(id, NodeMask::new_tag());
        match &mut self.tree.nodes[id] {
            Some(node) => {
                match &mut node.content {
                    NodeType::Element(e) => {
                        e.tag = tag;
                    },
                    _ => {},
                }
            },
            None => {},
        }
        proof {
            Tree::lemma_content_swap_wf(old(self).tree, self.tree, id as int);
            lemma_index_keeps(*old(self), *self, id);
        }
    }

    /// Replace a node's namespace; only the namespace facet is marked.
    pub fn set_namespace(&mut self, id: usize, namespace: Option<String>)
        requires
            old(self).wf(),
        ensures
            final(self).wf(),
            !(old(self).tree.present(id as int) && old(self).tree.content_of(id as int)
                is Element) ==> *final(self) == *old(self),
            (old(self).tree.present(id as int) && old(self).tree.content_of(id as int)
                is Element) ==> {
                &&& content_same_but_namespace(
                    final(self).tree.content_of(id as int),
                    old(self).tree.content_of(id as int),
                )
                &&& final(self).tree.content_of(id as int)->Element_0.namespace == namespace
                &&& same_but_one_content(*old(self), *final(self), id)
                &&& final(self).dirty_nodes.pending_passes() == passes_marked(
                    old(self).dirty_nodes.pending_passes(),
                    id,
                    interested_ids(old(self).passes(), crate::node_ref::mv_namespace()),
                )
                &&& final(self).dirty_nodes.pending_masks() == mask_marked(
                    old(self).dirty_nodes.pending_masks(),
                    id,
                    crate::node_ref::mv_namespace(),
                )
            },
    {
        let ok = match self.tree.content(id) {
            Some(c) => matches!(c, NodeType::Element(_)),
            None => false,
        };
        if !ok {
            return ;
        }
        self.dirty_nodes.mark_dirty(id, NodeMask::new_namespace());
        match &mut self.tree.nodes[id] {
            Some(node) => {
                match &mut node.content {
                    NodeType::Element(e) => {
                        e.namespace = namespace;
                    },
                    _ => {},
                }
            },
            None => {},
        }
        proof {
            Tree::lemma_content_swap_wf(old(self).tree, self.tree, id as int);
            lemma_index_keeps(*old(self), *self, id);
        }
    }

    /// Replace a text node's characters; only the text facet is marked.
    pub fn set_text(&mut self, id: usize, text: String)
        requires
            old(self).wf(),
        ensures
            final(self).wf(),
            !(old(self).tree.present(id as int) && old(self).tree.content_of(id as int)
                is Text) ==> *final(self) == *old(self),
            (old(self).tree.present(id as int) && old(self).tree.content_of(id as int)
                is Text) ==> {
                &&& final(self).tree.content_of(id as int) is Text
                &&& final(self).tree.content_of(id as int)->Text_0.text@ == text@
                &&& final(self).tree.content_of(id as int)->Text_0.listeners == old(
                    self,
                ).tree.content_of(id as int)->Text_0.listeners
                &&& same_but_one_content(*old(self), *final(self), id)
                &&& final(self).dirty_nodes.pending_passes() == passes_marked(
                    old(self).dirty_nodes.pending_passes(),
                    id,
                    interested_ids(old(self).passes(), crate::node_ref::mv_text()),
                )
                &&& final(self).dirty_nodes.pending_masks() == mask_marked(
                    old(self).dirty_nodes.pending_masks(),
                    id,
                    crate::node_ref::mv_text(),
                )
            },
    {
        let ok = match self.tree.content(id) {
            Some(c) => matches!(c, NodeType::Text(_)),
            None => false,
        };
        if !ok {
            return ;
        }
        self.dirty_nodes.mark_dirty(id, NodeMask::new_text());
        match &mut self.tree.nodes[id] {
            Some(node) => {
                match &mut node.content {
                    NodeType::Text(t) => {
                        t.text = text;
                    },
                    _ => {},
                }
            },
            None => {},
        }
        proof {
            Tree::lemma_content_swap_wf(old(self).tree, self.tree, id as int);
            lemma_index_keeps(*old(self), *self, id);
        }
    }

    /// Set one attribute on an element, handing back what it replaced;
    /// only that attribute's facet is marked.
    pub fn set_attribute(&mut self, id: usize, key: AttributeKey, value: AttributeValue) -> (r:
        Option<AttributeValue>)
        requires
            old(self).wf(),
        ensures
            final(self).wf(),
            !(old(self).tree.present(id as int) && old(self).tree.content_of(id as int)
                is Element) ==> *final(self) == *old(self) && r is None,
            (old(self).tree.present(id as int) && old(self).tree.content_of(id as int)
                is Element) ==> {
                &&& content_same_but_attrs(
                    final(self).tree.content_of(id as int),
                    old(self).tree.content_of(id as int),
                )
                &&& crate::node::attrs_map(
                    final(self).tree.content_of(id as int)->Element_0.attributes@,
                ) == crate::node::attrs_map(
                    old(self).tree.content_of(id as int)->Element_0.attributes@,
                ).insert(crate::node::attr_key_view(key), value)
                &&& (match r {
                    Some(v) => crate::node::attrs_map(
                        old(self).tree.content_of(id as int)->Element_0.attributes@,
                    ).dom().contains(crate::node::attr_key_view(key)) && v == crate::node::attrs_map(
                        old(self).tree.content_of(id as int)->Element_0.attributes@,
                    )[crate::node::attr_key_view(key)],
                    None => !crate::node::attrs_map(
                        old(self).tree.content_of(id as int)->Element_0.attributes@,
                    ).dom().contains(crate::node::attr_key_view(key)),
                })
                &&& same_but_one_content(*old(self), *final(self), id)
                &&& final(self).dirty_nodes.pending_passes() == passes_marked(
                    old(self).dirty_nodes.pending_passes(),
                    id,
                    interested_ids(old(self).passes(), crate::node_ref::mv_attr(key.name@)),
                )
                &&& final(self).dirty_nodes.pending_masks() == mask_marked(
                    old(self).dirty_nodes.pending_masks(),
                    id,
                    crate::node_ref::mv_attr(key.name@),
                )
            },
    {
        let ok = match self.tree.content(id) {
            Some(c) => matches!(c, NodeType::Element(_)),
            None => false,
        };
        if !ok {
            return None;
        }
        let mask = NodeMask::new_attr(key.name.clone());
        self.dirty_nodes.mark_dirty(id, mask);
        let ghost kv = crate::node::attr_key_view(key);
        let mut r: Option<AttributeValue> = None;
        match &mut self.tree.nodes[id] {
            Some(node) => {
                match &mut node.content {
                    NodeType::Element(e) => {
                        let ghost apre = e.attributes@;
                        match crate::node::find_attr(&e.attributes, &key) {
                            Some(i) => {
                                let old_entry = e.attributes.remove(i);
                                e.attributes.push((key, value));
                                r = Some(old_entry.1);
                                proof {
                                    crate::node::lemma_attr_set(apre, e.attributes@, kv, i as int);
                                }
                            },
                            None => {
                                e.attributes.push((key, value));
                                proof {
                                    crate::node::lemma_attr_push(apre, e.attributes@, kv);
                                }
                            },
                        }
                    },
                    _ => {},
                }
            },
            None => {},
        }
        proof {
            Tree::lemma_content_swap_wf(old(self).tree, self.tree, id as int);
            lemma_index_keeps(*old(self), *self, id);
        }
        r
    }

    /// Take one attribute off an element, handing back what was there;
    /// only that attribute's facet is marked.
    pub fn remove_attributes(&mut self, id: usize, key: &AttributeKey) -> (r: Option<
        AttributeValue,
    >)
        requires
            old(self).wf(),
        ensures
            final(self).wf(),
            !(old(self).tree.present(id as int) && old(self).tree.content_of(id as int)
                is Element) ==> *final(self) == *old(self) && r is None,
            (old(self).tree.present(id as int) && old(self).tree.content_of(id as int)
                is Element) ==> {
                &&& content_same_but_attrs(
                    final(self).tree.content_of(id as int),
                    old(self).tree.content_of(id as int),
                )
                &&& crate::node::attrs_map(
                    final(self).tree.content_of(id as int)->Element_0.attributes@,
                ) == crate::node::attrs_map(
                    old(self).tree.content_of(id as int)->Element_0.attributes@,
                ).remove(crate::node::attr_key_view(*key))
                &&& (match r {
                    Some(v) => crate::node::attrs_map(
                        old(self).tree.content_of(id as int)->Element_0.attributes@,
                    ).dom().contains(crate::node::attr_key_view(*key)) && v
                        == crate::node::attrs_map(
                        old(self).tree.content_of(id as int)->Element_0.attributes@,
                    )[crate::node::attr_key_view(*key)],
                    None => !crate::node::attrs_map(
                        old(self).tree.content_of(id as int)->Element_0.attributes@,
                    ).dom().contains(crate::node::attr_key_view(*key)),
                })
                &&& same_but_one_content(*old(self), *final(self), id)
                &&& final(self).dirty_nodes.pending_passes() == passes_marked(
                    old(self).dirty_nodes.pending_passes(),
                    id,
                    interested_ids(old(self).passes(), crate::node_ref::mv_attr(key.name@)),
                )
                &&& final(self).dirty_nodes.pending_masks() == mask_marked(
                    old(self).dirty_nodes.pending_masks(),
                    id,
                    crate::node_ref::mv_attr(key.name@),
                )
            },
    {
        let ok = match self.tree.content(id) {
            Some(c) => matches!(c, NodeType::Element(_)),
            None => false,
        };
        if !ok {
            return None;
        }
        let mask = NodeMask::new_attr(key.name.clone());
        self.dirty_nodes.mark_dirty(id, mask);
        let ghost kv = crate::node::attr_key_view(*key);
        let mut r: Option<AttributeValue> = None;
        match &mut self.tree.nodes[id] {
            Some(node) => {
                match &mut node.content {
                    NodeType::Element(e) => {
                        let ghost apre = e.attributes@;
                        match crate::node::find_attr(&e.attributes, key) {
                            Some(i) => {
                                let old_entry = e.attributes.remove(i);
                                r = Some(old_entry.1);
                                proof {
                                    crate::node::lemma_attr_remove(
                                        apre,
                                        e.attributes@,
                                        kv,
                                        i as int,
                                    );
                                }
                            },
                            None => {
                                proof {
                                    crate::node::lemma_attr_absent(apre, kv);
                                }
                            },
                        }
                    },
                    _ => {},
                }
            },
            None => {},
        }
        proof {
            Tree::lemma_content_swap_wf(old(self).tree, self.tree, id as int);
            lemma_index_keeps(*old(self), *self, id);
        }
        r
    }

    /// Replace a node's whole content: maximally conservative, every
    /// facet is marked. Index entries for the node's old listeners are
    /// purged; the new content carries no listener names of its own, so
    /// listening is re-registered explicitly. The root can only stay an
    /// element. An inadmissible request changes nothing.
    #[verifier::rlimit(100)]
    pub fn set_type(&mut self, id: usize, new: NodeType)
        requires
            old(self).wf(),
            content_wf(new),
            listeners_of(new) == Set::<Seq<char>>::empty(),
        ensures
            final(self).wf(),
            !(old(self).tree.present(id as int) && (id != 0 || new is Element)) ==> *final(self)
                == *old(self),
            (old(self).tree.present(id as int) && (id != 0 || new is Element)) ==> {
                &&& final(self).tree.content_of(id as int) == new
                &&& final(self).tree.nodes@.len() == old(self).tree.nodes@.len()
                &&& (forall|k: int| final(self).tree.present(k) == old(self).tree.present(k))
                &&& (forall|k: int|
                    old(self).tree.present(k) && k != id ==> final(self).tree.node_of(k) == old(
                        self,
                    ).tree.node_of(k))
                &&& final(self).tree.parent_of(id as int) == old(self).tree.parent_of(id as int)
                &&& final(self).tree.kids(id as int) == old(self).tree.kids(id as int)
                &&& final(self).tree.height_of(id as int) == old(self).tree.height_of(id as int)
                &&& (forall|e: Seq<char>, n: usize|
                    final(self).is_listening(e, n) == (old(self).is_listening(e, n) && n != id))
                &&& final(self).passes() == old(self).passes()
                &&& final(self).dirty_nodes.pending_passes() == passes_marked(
                    old(self).dirty_nodes.pending_passes(),
                    id,
                    interested_ids(old(self).passes(), mv_all()),
                )
                &&& final(self).dirty_nodes.pending_masks() == mask_marked(
                    old(self).dirty_nodes.pending_masks(),
                    id,
                    mv_all(),
                )
                &&& final(self).events@ == old(self).events@
            },
    {
        let ok = self.tree.contains(id) && (id != 0 || matches!(&new, NodeType::Element(_)));
        if !ok {
            return ;
        }
        self.dirty_nodes.mark_dirty(id, NodeMask::new_all());
        let ls: Vec<String> = match self.tree.content(id) {
            Some(c) => match c {
                NodeType::Element(e) => crate::node::clone_strings(&e.listeners),
                NodeType::Text(tx) => crate::node::clone_strings(&tx.listeners),
                NodeType::Placeholder => Vec::new(),
            },
            None => Vec::new(),
        };
        proof {
            assert(str_set(ls@) =~= listeners_of(old(self).tree.content_of(id as int)));
        }
        let ghost at_start = self.nodes_listening@;
        let ghost dpost = self.dirty_nodes;
        let mut u: usize = 0;
        while u < ls.len()
            invariant
                u <= ls@.len(),
                self.tree == old(self).tree,
                self.dirty_nodes == dpost,
                self.events == old(self).events,
                forall|i: int, j: int|
                    0 <= i < j < self.nodes_listening@.len() ==> self.nodes_listening@[i].0@
                        != self.nodes_listening@[j].0@,
                forall|i: int|
                    0 <= i < self.nodes_listening@.len() ==> (
                    #[trigger] self.nodes_listening@[i]).1@.no_duplicates(),
                forall|e: Seq<char>, m: usize|
                    listed(self.nodes_listening@, e, m) == (listed(at_start, e, m) && !(m == id
                        && str_set(ls@.subrange(0, u as int)).contains(e))),
            decreases ls@.len() - u,
        {
            let ghost mid_idx = self.nodes_listening@;
            idx_remove(&mut self.nodes_listening, &ls[u], id);
            proof {
                crate::node::lemma_str_set_snoc(ls@, u as int);
                assert(forall|e: Seq<char>, m: usize|
                    listed(mid_idx, e, m) == (listed(at_start, e, m) && !(m == id && str_set(
                        ls@.subrange(0, u as int),
                    ).contains(e))));
                assert(forall|e: Seq<char>, m: usize|
                    listed(self.nodes_listening@, e, m) == (listed(mid_idx, e, m) && !(e
                        == ls@[u as int]@ && m == id)));
                assert forall|e: Seq<char>, m: usize|
                    listed(self.nodes_listening@, e, m) == (listed(at_start, e, m) && !(m == id
                        && str_set(ls@.subrange(0, u + 1)).contains(e))) by {
                    assert(str_set(ls@.subrange(0, u + 1)) == str_set(
                        ls@.subrange(0, u as int),
                    ).insert(ls@[u as int]@));
                    assert(listed(mid_idx, e, m) == (listed(at_start, e, m) && !(m == id
                        && str_set(ls@.subrange(0, u as int)).contains(e))));
                    assert(listed(self.nodes_listening@, e, m) == (listed(mid_idx, e, m) && !(e
                        == ls@[u as int]@ && m == id)));
                }
            }
            u += 1;
        }
        let ghost purged = self.nodes_listening@;
        proof {
            assert(ls@.subrange(0, u as int) =~= ls@);
            assert forall|e: Seq<char>, m: usize|
                listed(purged, e, m) == (listed(at_start, e, m) && !(m == id && str_set(
                    ls@,
                ).contains(e))) by {
                assert(listed(self.nodes_listening@, e, m) == (listed(at_start, e, m) && !(m == id
                    && str_set(ls@.subrange(0, u as int)).contains(e))));
            }
            assert forall|e: Seq<char>, m: usize|
                listed(purged, e, m) == (listed(at_start, e, m) && m != id) by {
                if listed(at_start, e, m) && m == id {
                    let q = choose|q: int|
                        0 <= q < old(self).nodes_listening@.len() && (#[trigger] old(
                            self,
                        ).nodes_listening@[q]).0@ == e && old(self).nodes_listening@[q].1@
                            .contains(m);
                    let w = choose|w: int|
                        0 <= w < old(self).nodes_listening@[q].1@.len() && old(
                            self,
                        ).nodes_listening@[q].1@[w] == m;
                    assert(listeners_of(old(self).tree.content_of(id as int)).contains(e));
                    assert(str_set(ls@).contains(e));
                }
            }
        }
        match &mut self.tree.nodes[id] {
            Some(node) => {
                node.content = new;
            },
            None => {},
        }
        proof {
            assert(self.nodes_listening@ == purged);
            Tree::lemma_content_swap_wf(old(self).tree, self.tree, id as int);
            lemma_settype_index_wf(*old(self), *self, id);
            assert forall|k: usize|
                #[trigger] self.dirty_nodes.pending_passes().dom().contains(k) implies (k as int)
                < self.tree.nodes@.len() by {
                if k != id {
                    assert(old(self).dirty_nodes.pending_passes().dom().contains(k));
                }
            }
            assert forall|k: usize|
                #[trigger] self.dirty_nodes.pending_masks().dom().contains(k) implies (k as int)
                < self.tree.nodes@.len() by {
                if k != id {
                    assert(old(self).dirty_nodes.pending_masks().dom().contains(k));
                }
            }
        }
    }

    /// Mark one pass pending for one node, as direct typed-state access
    /// does; the storage living with the pass engine is outside this core.
    pub fn mark_pass_dirty(&mut self, id: usize, pass_id: u64)
        requires
            old(self).wf(),
            old(self).tree.present(id as int),
        ensures
            final(self).wf(),
            final(self).tree == old(self).tree,
            final(self).nodes_listening == old(self).nodes_listening,
            final(self).events == old(self).events,
            final(self).passes() == old(self).passes(),
            final(self).dirty_nodes.pending_masks() == old(self).dirty_nodes.pending_masks(),
            final(self).dirty_nodes.pending_passes() == passes_marked(
                old(self).dirty_nodes.pending_passes(),
                id,
                Set::empty().insert(pass_id),
            ),
    {
        self.dirty_nodes.mark_pass(id, pass_id);
    }

    /// The sibling right after `id` in its parent's child list.
    pub fn next(&self, id: usize) -> (r: Option<usize>)
        requires
            self.wf(),
        ensures
            match r {
                Some(sib) => {
                    &&& self.tree.present(id as int)
                    &&& self.tree.parent_of(id as int) is Some
                    &&& self.tree.kid_index(
                        self.tree.parent_get(id as int) as int,
                        id,
                    ) + 1 < self.tree.kids(self.tree.parent_get(id as int) as int).len()
                    &&& sib == self.tree.kids(self.tree.parent_get(id as int) as int)[self.tree.kid_index(
                        self.tree.parent_get(id as int) as int,
                        id,
                    ) + 1]
                },
                None => !self.tree.present(id as int) || self.tree.parent_of(id as int) is None
                    || self.tree.kid_index(self.tree.parent_get(id as int) as int, id) + 1
                    >= self.tree.kids(self.tree.parent_get(id as int) as int).len(),
            },
    {
        let p = match self.tree.parent_id(id) {
            Some(p) => p,
            None => {
                return None;
            },
        };
        let ks = match self.tree.children_ids(p) {
            Some(v) => v,
            None => Vec::new(),
        };
        let i = match crate::tree::find_usize(&ks, id) {
            Some(i) => i,
            None => 0,
        };
        proof {
            assert(self.tree.kids(p as int).contains(id));
            assert(ks@[i as int] == id);
            self.tree.lemma_kid_index(p as int, i as int);
        }
        if i < ks.len() - 1 {
            Some(ks[i + 1])
        } else {
            None
        }
    }

    /// The sibling right before `id` in its parent's child list.
    pub fn prev(&self, id: usize) -> (r: Option<usize>)
        requires
            self.wf(),
        ensures
            match r {
                Some(sib) => {
                    &&& self.tree.present(id as int)
                    &&& self.tree.parent_of(id as int) is Some
                    &&& self.tree.kid_index(self.tree.parent_get(id as int) as int, id) >= 1
                    &&& sib == self.tree.kids(self.tree.parent_get(id as int) as int)[self.tree.kid_index(
                        self.tree.parent_get(id as int) as int,
                        id,
                    ) - 1]
                },
                None => !self.tree.present(id as int) || self.tree.parent_of(id as int) is None
                    || self.tree.kid_index(self.tree.parent_get(id as int) as int, id) == 0,
            },
    {
        let p = match self.tree.parent_id(id) {
            Some(p) => p,
            None => {
                return None;
            },
        };
        let ks = match self.tree.children_ids(p) {
            Some(v) => v,
            None => Vec::new(),
        };
        let i = match crate::tree::find_usize(&ks, id) {
            Some(i) => i,
            None => 0,
        };
        proof {
            assert(self.tree.kids(p as int).contains(id));
            assert(ks@[i as int] == id);
            self.tree.lemma_kid_index(p as int, i as int);
        }
        if i > 0 {
            Some(ks[i - 1])
        } else {
            None
        }
    }

    /// Every node attached under the root, depth first, each parent before
    /// its children.
    pub fn traverse_depth_first(&self) -> (r: Vec<usize>)
        requires
            self.wf(),
        ensures
            r@.len() >= 1,
            r@[0] == 0,
            r@.no_duplicates(),
            forall|i: int|
                0 <= i < r@.len() ==> self.tree.present(#[trigger] r@[i] as int)
                    && self.tree.has_ancestor(r@[i] as int, 0),
            forall|n: int|
                self.tree.present(n) && self.tree.has_ancestor(n, 0) ==> r@.contains(n as usize),
            forall|i: int|
                1 <= i < r@.len() ==> self.tree.parent_of(#[trigger] r@[i] as int) is Some
                    && r@.subrange(0, i).contains(self.tree.parent_get(r@[i] as int)),
            forall|i: int, j: int|
                0 <= i < j < r@.len() && #[trigger] self.tree.same_parent(r@[i], r@[j])
                    ==> self.tree.sib_before(r@[i], r@[j]),
    {
        self.tree.subtree_ids(0)
    }

    /// Every node attached under the root in a level order: heights never
    /// decrease along the result, each parent comes before its children,
    /// and nodes of one parent come in child-list order.
    #[verifier::rlimit(100)]
    pub fn traverse_breadth_first(&self) -> (r: Vec<usize>)
        requires
            self.wf(),
        ensures
            r@.len() >= 1,
            r@[0] == 0,
            r@.no_duplicates(),
            forall|n: usize|
                #[trigger] r@.contains(n) == (self.tree.present(n as int)
                    && self.tree.has_ancestor(n as int, 0)),
            forall|i: int, j: int|
                0 <= i < j < r@.len() ==> self.tree.height_of(r@[i] as int)
                    <= self.tree.height_of(r@[j] as int),
            forall|i: int, j: int|
                0 <= i < j < r@.len() && #[trigger] self.tree.same_parent(r@[i], r@[j])
                    ==> self.tree.sib_before(r@[i], r@[j]),
            forall|j: int|
                0 < j < r@.len() ==> self.tree.parent_of(#[trigger] r@[j] as int) is Some
                    && exists|i: int|
                    0 <= i < j && r@[i] == self.tree.parent_get(r@[j] as int),
    {
        let all = self.tree.subtree_ids(0);
        let ghost av: Seq<usize> = all@;
        let mut src = all;
        let mut out: Vec<usize> = Vec::new();
        proof {
            assert forall|i: int, j: int|
                0 <= i < j < src@.len() implies pos_in(av, src@[i]) < pos_in(av, src@[j]) by {
                lemma_pos_in(av, i);
                lemma_pos_in(av, j);
            }
        }
        while src.len() > 0
            invariant
                self.wf(),
                av.no_duplicates(),
                av.len() >= 1 && av[0] == 0,
                forall|n: usize|
                    #[trigger] av.contains(n) == (self.tree.present(n as int)
                        && self.tree.has_ancestor(n as int, 0)),
                forall|i: int|
                    0 <= i < av.len() ==> self.tree.present(#[trigger] av[i] as int),
                forall|i: int, j: int|
                    0 <= i < j < av.len() && #[trigger] self.tree.same_parent(av[i], av[j])
                        ==> self.tree.sib_before(av[i], av[j]),
                out@.no_duplicates(),
                src@.no_duplicates(),
                forall|n: usize| !(out@.contains(n) && src@.contains(n)),
                forall|n: usize| (out@.contains(n) || src@.contains(n)) == #[trigger] av.contains(
                    n,
                ),
                forall|i: int| 0 <= i < out@.len() ==> self.tree.present(#[trigger] out@[i] as int),
                forall|i: int| 0 <= i < src@.len() ==> self.tree.present(#[trigger] src@[i] as int),
                forall|i: int, j: int|
                    0 <= i < j < src@.len() ==> pos_in(av, src@[i]) < pos_in(av, src@[j]),
                forall|i: int, j: int|
                    0 <= i < j < out@.len() ==> bfs_before(self.tree, av, out@[i], out@[j]),
                forall|i: int, j: int|
                    0 <= i < out@.len() && 0 <= j < src@.len() ==> bfs_before(
                        self.tree,
                        av,
                        out@[i],
                        src@[j],
                    ),
                out@.len() > 0 ==> out@[0] == 0,
                out@.len() == 0 ==> src@ == av,
            decreases src@.len(),
        {
            // The first waiting node of least height: stable within a level.
            let mut best: usize = 0;
            let mut j: usize = 1;
            while j < src.len()
                invariant
                    self.wf(),
                    src@.len() > 0,
                    best < j || (best == 0 && j <= src@.len()),
                    best < src@.len(),
                    j <= src@.len(),
                    forall|i: int|
                        0 <= i < src@.len() ==> self.tree.present(#[trigger] src@[i] as int),
                    forall|q: int|
                        0 <= q < j && q != best ==> self.tree.height_of(src@[best as int] as int)
                            < self.tree.height_of(#[trigger] src@[q] as int) || (
                        self.tree.height_of(src@[best as int] as int) == self.tree.height_of(
                            src@[q] as int,
                        ) && best < q),
                decreases src@.len() - j,
            {
                let hb = match self.tree.height(src[best]) {
                    Some(h) => h,
                    None => 0,
                };
                let hj = match self.tree.height(src[j]) {
                    Some(h) => h,
                    None => 0,
                };
                if hj < hb {
                    best = j;
                }
                j += 1;
            }
            let ghost srcpre = src@;
            let ghost outpre = out@;
            let x = src.remove(best);
            out.push(x);
            proof {
                assert(x == srcpre[best as int]);
                assert(srcpre.contains(x));
                assert(!outpre.contains(x));
                assert(out@.no_duplicates()) by {
                    assert forall|a: int, b: int|
                        0 <= a < b < out@.len() implies out@[a] != out@[b] by {
                        if b == out@.len() - 1 {
                            assert(out@[a] == outpre[a]);
                            assert(outpre.contains(outpre[a]));
                        }
                    }
                }
                assert(src@.no_duplicates()) by {
                    assert forall|a: int, b: int|
                        0 <= a < b < src@.len() implies src@[a] != src@[b] by {
                        let sa = if a < best { a } else { a + 1 };
                        let sb = if b < best { b } else { b + 1 };
                        assert(src@[a] == srcpre[sa] && src@[b] == srcpre[sb]);
                    }
                }
                assert forall|a: int, b: int|
                    0 <= a < b < src@.len() implies pos_in(av, src@[a]) < pos_in(
                    av,
                    src@[b],
                ) by {
                    let sa = if a < best { a } else { a + 1 };
                    let sb = if b < best { b } else { b + 1 };
                    assert(src@[a] == srcpre[sa] && src@[b] == srcpre[sb]);
                }
                assert forall|n: usize| #[trigger] src@.contains(n) implies srcpre.contains(n)
                    && n != x by {
                    let q = choose|q: int| 0 <= q < src@.len() && src@[q] == n;
                    let sq = if q < best { q } else { q + 1 };
                    assert(srcpre[sq] == n);
                }
                assert forall|n: usize|
                    (out@.contains(n) || src@.contains(n)) == #[trigger] av.contains(n) by {
                    if out@.contains(n) {
                        let q = choose|q: int| 0 <= q < out@.len() && out@[q] == n;
                        if q < out@.len() - 1 {
                            assert(outpre[q] == n);
                            assert(outpre.contains(n));
                        } else {
                            assert(n == x);
                        }
                    }
                    if av.contains(n) {
                        assert(outpre.contains(n) || srcpre.contains(n));
                        if outpre.contains(n) {
                            let q = choose|q: int| 0 <= q < outpre.len() && outpre[q] == n;
                            assert(out@[q] == n);
                        } else {
                            if n == x {
                                assert(out@[out@.len() - 1] == x);
                            } else {
                                let q = choose|q: int| 0 <= q < srcpre.len() && srcpre[q] == n;
                                let sq = if q < best { q } else { q - 1 };
                                if q != best {
                                    assert(src@[sq] == n);
                                }
                            }
                        }
                    }
                }
                // The selected node precedes everything still waiting.
                assert forall|q: int| 0 <= q < src@.len() implies bfs_before(
                    self.tree,
                    av,
                    x,
                    src@[q],
                ) by {
                    let sq = if q < best { q } else { q + 1 };
                    assert(src@[q] == srcpre[sq]);
                    if sq < best {
                        assert(self.tree.height_of(x as int) < self.tree.height_of(
                            srcpre[sq] as int,
                        ));
                    } else {
                        if self.tree.height_of(x as int) == self.tree.height_of(
                            srcpre[sq] as int,
                        ) {
                            assert(pos_in(av, srcpre[best as int]) < pos_in(av, srcpre[sq]));
                        }
                    }
                }
                assert forall|i: int, j2: int|
                    0 <= i < out@.len() && 0 <= j2 < src@.len() implies bfs_before(
                    self.tree,
                    av,
                    out@[i],
                    src@[j2],
                ) by {
                    let sq = if j2 < best { j2 } else { j2 + 1 };
                    assert(src@[j2] == srcpre[sq]);
                    if i < out@.len() - 1 {
                        assert(out@[i] == outpre[i]);
                        assert(srcpre.contains(srcpre[sq]));
                    } else {
                        assert(out@[i] == x);
                    }
                }
                if outpre.len() == 0 {
                    assert(out@[0] == x);
                    assert(srcpre == av);
                    assert(x == 0) by {
                        assert(srcpre[0] == 0);
                        if best != 0 {
                            assert(self.tree.height_of(srcpre[best as int] as int)
                                < self.tree.height_of(0) || (self.tree.height_of(
                                srcpre[best as int] as int,
                            ) == self.tree.height_of(0) && best < 0));
                            assert(self.tree.height_of(0) == 0);
                        }
                    }
                }
            }
        }
        proof {
            assert forall|n: usize|
                #[trigger] out@.contains(n) == (self.tree.present(n as int)
                    && self.tree.has_ancestor(n as int, 0)) by {
                assert((out@.contains(n) || src@.contains(n)) == av.contains(n));
                assert(!src@.contains(n));
            }
            bfs_final_proof(self.tree, av, out@);
            assert forall|i: int, j: int|
                0 <= i < j < out@.len() implies self.tree.height_of(out@[i] as int)
                <= self.tree.height_of(out@[j] as int) by {
                assert(bfs_before(self.tree, av, out@[i], out@[j]));
            }
        }
        out
    }
}

/// The position of an identity in a duplicate-free listing.
pub open spec fn pos_in(s: Seq<usize>, x: usize) -> int {
    choose|i: int| 0 <= i < s.len() && s[i] == x
}

/// In a duplicate-free listing, each entry's position is its index.
proof fn lemma_pos_in(s: Seq<usize>, w: int)
    requires
        s.no_duplicates(),
        0 <= w < s.len(),
    ensures
        pos_in(s, s[w]) == w,
{
    let i = choose|i: int| 0 <= i < s.len() && s[i] == s[w];
    if i < w {
        assert(s[i] != s[w]);
    } else if w < i {
        assert(s[w] != s[i]);
    }
}

/// Level order over a reference listing: lower first, ties by the
/// listing's own order.
pub open spec fn bfs_before(t: Tree, ordering: Seq<usize>, a: usize, b: usize) -> bool {
    ||| t.height_of(a as int) < t.height_of(b as int)
    ||| (t.height_of(a as int) == t.height_of(b as int) && pos_in(ordering, a) < pos_in(
        ordering,
        b,
    ))
}

/// The level sort keeps the preorder's sibling order and puts every
/// parent before its children.
#[verifier::rlimit(100)]
proof fn bfs_final_proof(t: Tree, av: Seq<usize>, out: Seq<usize>)
    requires
        t.wf(),
        av.no_duplicates(),
        av.len() >= 1 && av[0] == 0,
        forall|n: usize|
            #[trigger] av.contains(n) == (t.present(n as int) && t.has_ancestor(n as int, 0)),
        forall|i: int, j: int|
            0 <= i < j < av.len() && #[trigger] t.same_parent(av[i], av[j]) ==> t.sib_before(
                av[i],
                av[j],
            ),
        out.no_duplicates(),
        forall|n: usize| #[trigger] out.contains(n) == av.contains(n),
        forall|i: int| 0 <= i < out.len() ==> t.present(#[trigger] out[i] as int),
        forall|i: int, j: int| 0 <= i < j < out.len() ==> bfs_before(t, av, out[i], out[j]),
        out.len() > 0 ==> out[0] == 0,
    ensures
        forall|i: int, j: int|
            0 <= i < j < out.len() && #[trigger] t.same_parent(out[i], out[j]) ==> t.sib_before(
                out[i],
                out[j],
            ),
        forall|j: int|
            0 < j < out.len() ==> t.parent_of(#[trigger] out[j] as int) is Some && exists|i: int|
                0 <= i < j && out[i] == t.parent_get(out[j] as int),
{
    assert forall|i: int, j: int|
        0 <= i < j < out.len() && #[trigger] t.same_parent(out[i], out[j]) implies t.sib_before(
        out[i],
        out[j],
    ) by {
        let a = out[i];
        let b = out[j];
        assert(t.height_of(a as int) == t.height_of(b as int)) by {
            assert(t.present(a as int) && t.node_ok(a as int));
            assert(t.present(b as int) && t.node_ok(b as int));
        }
        assert(bfs_before(t, av, out[i], out[j]));
        assert(pos_in(av, a) < pos_in(av, b));
        assert(out.contains(a) && out.contains(b));
        assert(av.contains(a) && av.contains(b));
        let wa = choose|w: int| 0 <= w < av.len() && av[w] == a;
        let wb = choose|w: int| 0 <= w < av.len() && av[w] == b;
        lemma_pos_in(av, wa);
        lemma_pos_in(av, wb);
        assert(av[pos_in(av, a)] == a && av[pos_in(av, b)] == b);
        assert(t.same_parent(av[pos_in(av, a)], av[pos_in(av, b)]));
    }
    assert forall|j: int|
        0 < j < out.len() implies t.parent_of(#[trigger] out[j] as int) is Some && exists|i: int|
        0 <= i < j && out[i] == t.parent_get(out[j] as int) by {
        let c = out[j];
        assert(out.contains(c));
        assert(av.contains(c));
        assert(c != 0) by {
            assert(out[0] == 0);
        }
        assert(t.has_ancestor(c as int, 0));
        let p = t.parent_get(c as int);
        assert(t.present(p as int));
        assert(t.has_ancestor(p as int, 0));
        assert(av.contains(p));
        assert(out.contains(p));
        let i = choose|i: int| 0 <= i < out.len() && out[i] == p;
        assert(t.height_of(p as int) < t.height_of(c as int));
        assert(i < j) by {
            if i > j {
                assert(bfs_before(t, av, out[j], out[i]));
            }
            if i == j {
                assert(t.height_of(c as int) as int == t.height_of(c as int) as int + 1);
            }
        }
    }
}

/// One node's content was replaced; nothing else moved.
pub open spec fn same_but_one_content(pre: RealDom, post: RealDom, id: usize) -> bool {
    &&& post.tree.nodes@.len() == pre.tree.nodes@.len()
    &&& (forall|k: int| post.tree.present(k) == pre.tree.present(k))
    &&& (forall|k: int|
        pre.tree.present(k) && k != id ==> post.tree.node_of(k) == pre.tree.node_of(k))
    &&& post.tree.parent_of(id as int) == pre.tree.parent_of(id as int)
    &&& post.tree.kids(id as int) == pre.tree.kids(id as int)
    &&& post.tree.height_of(id as int) == pre.tree.height_of(id as int)
    &&& post.nodes_listening == pre.nodes_listening
    &&& post.events == pre.events
    &&& post.passes() == pre.passes()
}

/// Element contents that agree on everything but the tag.
pub open spec fn content_same_but_tag(a: NodeType, b: NodeType) -> bool {
    &&& a is Element
    &&& b is Element
    &&& a->Element_0.namespace == b->Element_0.namespace
    &&& a->Element_0.attributes == b->Element_0.attributes
    &&& a->Element_0.listeners == b->Element_0.listeners
}

/// Element contents that agree on everything but the namespace.
pub open spec fn content_same_but_namespace(a: NodeType, b: NodeType) -> bool {
    &&& a is Element
    &&& b is Element
    &&& a->Element_0.tag == b->Element_0.tag
    &&& a->Element_0.attributes == b->Element_0.attributes
    &&& a->Element_0.listeners == b->Element_0.listeners
}

/// Element contents that agree on everything but the attribute list.
pub open spec fn content_same_but_attrs(a: NodeType, b: NodeType) -> bool {
    &&& a is Element
    &&& b is Element
    &&& a->Element_0.tag == b->Element_0.tag
    &&& a->Element_0.namespace == b->Element_0.namespace
    &&& a->Element_0.listeners == b->Element_0.listeners
}

/// A content edit that keeps the node's listener names keeps the index
/// sound.
proof fn lemma_index_keeps(pre: RealDom, post: RealDom, id: usize)
    requires
        pre.wf(),
        post.nodes_listening == pre.nodes_listening,
        post.tree.wf(),
        post.tree.nodes@.len() == pre.tree.nodes@.len(),
        forall|k: int| post.tree.present(k) == pre.tree.present(k),
        forall|k: int|
            pre.tree.present(k) && k != id ==> post.tree.content_of(k) == pre.tree.content_of(k),
        listeners_of(post.tree.content_of(id as int)) == listeners_of(
            pre.tree.content_of(id as int),
        ),
        forall|k: usize|
            #[trigger] post.dirty_nodes.pending_passes().dom().contains(k)
                ==> pre.dirty_nodes.pending_passes().dom().contains(k) || k == id,
        forall|k: usize|
            #[trigger] post.dirty_nodes.pending_masks().dom().contains(k)
                ==> pre.dirty_nodes.pending_masks().dom().contains(k) || k == id,
        pre.tree.present(id as int),
    ensures
        post.wf(),
{
    assert forall|i: int, j: int|
        0 <= i < post.nodes_listening@.len() && 0 <= j
            < post.nodes_listening@[i].1@.len() implies {
        let n = #[trigger] post.nodes_listening@[i].1@[j];
        &&& post.tree.present(n as int)
        &&& listeners_of(post.tree.content_of(n as int)).contains(post.nodes_listening@[i].0@)
    } by {
        let n = pre.nodes_listening@[i].1@[j];
        assert(pre.tree.present(n as int));
        assert(listeners_of(pre.tree.content_of(n as int)).contains(pre.nodes_listening@[i].0@));
    }
    assert forall|n: int, e: Seq<char>|
        post.tree.present(n) && #[trigger] listeners_of(post.tree.content_of(n)).contains(
            e,
        ) implies post.is_listening(e, n as usize) by {
        assert(post.tree.nodes@.len() <= usize::MAX) by {
            assert(post.tree.nodes.len() == post.tree.nodes@.len());
        }
        assert((n as usize) as int == n);
        assert(pre.tree.present(n));
        if n == id {
            assert(listeners_of(pre.tree.content_of(n)).contains(e));
        }
        assert(listeners_of(pre.tree.content_of(n)).contains(e));
        assert(pre.is_listening(e, n as usize));
    }
}

/// After any removal, the listener index holds no entry for a node that
/// is gone: every indexed node is live. Together with the removal
/// contract, a dropped subtree leaves no index entries behind, however
/// deep the listeners sat.
pub proof fn lemma_dead_nodes_not_listening(d: RealDom, e: Seq<char>, n: usize)
    requires
        d.wf(),
        !d.tree.present(n as int),
    ensures
        !d.is_listening(e, n),
{
    if d.is_listening(e, n) {
        let q = choose|q: int|
            0 <= q < d.nodes_listening@.len() && (#[trigger] d.nodes_listening@[q]).0@ == e
                && d.nodes_listening@[q].1@.contains(n);
        let w = choose|w: int|
            0 <= w < d.nodes_listening@[q].1@.len() && d.nodes_listening@[q].1@[w] == n;
        assert(d.tree.present(n as int));
    }
}

/// After a subtree removal whose purge struck exactly the dropped nodes
/// from the index, the index is sound again, in both directions.
proof fn lemma_remove_index_wf(pre: RealDom, post: RealDom, id: usize)
    requires
        pre.wf(),
        forall|i: int, j: int|
            0 <= i < j < post.nodes_listening@.len() ==> post.nodes_listening@[i].0@
                != post.nodes_listening@[j].0@,
        forall|i: int|
            0 <= i < post.nodes_listening@.len() ==> (
            #[trigger] post.nodes_listening@[i]).1@.no_duplicates(),
        forall|e: Seq<char>, n: usize|
            post.is_listening(e, n) == (pre.is_listening(e, n) && !pre.tree.has_ancestor(
                n as int,
                id as int,
            )),
        forall|k: int|
            post.tree.present(k) == (pre.tree.present(k) && !pre.tree.has_ancestor(
                k,
                id as int,
            )),
        forall|k: int|
            post.tree.present(k) ==> post.tree.content_of(k) == pre.tree.content_of(k),
    ensures
        post.index_wf(),
{
    assert forall|i: int, j: int|
        0 <= i < post.nodes_listening@.len() && 0 <= j
            < post.nodes_listening@[i].1@.len() implies {
        let n = #[trigger] post.nodes_listening@[i].1@[j];
        &&& post.tree.present(n as int)
        &&& listeners_of(post.tree.content_of(n as int)).contains(post.nodes_listening@[i].0@)
    } by {
        let n = post.nodes_listening@[i].1@[j];
        let e = post.nodes_listening@[i].0@;
        assert(post.nodes_listening@[i].1@.contains(n));
        assert(post.is_listening(e, n));
        assert(pre.is_listening(e, n) && !pre.tree.has_ancestor(n as int, id as int));
        let q = choose|q: int|
            0 <= q < pre.nodes_listening@.len() && (#[trigger] pre.nodes_listening@[q]).0@ == e
                && pre.nodes_listening@[q].1@.contains(n);
        let w = choose|w: int|
            0 <= w < pre.nodes_listening@[q].1@.len() && pre.nodes_listening@[q].1@[w] == n;
        assert(pre.tree.present(n as int));
        assert(listeners_of(pre.tree.content_of(n as int)).contains(e));
    }
    assert forall|n: int, e: Seq<char>|
        post.tree.present(n) && #[trigger] listeners_of(post.tree.content_of(n)).contains(
            e,
        ) implies post.is_listening(e, n as usize) by {
        assert(post.tree.nodes@.len() <= usize::MAX) by {
            assert(post.tree.nodes.len() == post.tree.nodes@.len());
        }
        assert((n as usize) as int == n);
        assert(pre.tree.present(n));
        assert(listeners_of(pre.tree.content_of(n)).contains(e));
        assert(pre.is_listening(e, n as usize));
    }
}

/// After one node's index entries were purged and its content swapped
/// for a listener-free one, the index is sound again, in both directions.
proof fn lemma_settype_index_wf(pre: RealDom, post: RealDom, id: usize)
    requires
        pre.wf(),
        forall|i: int, j: int|
            0 <= i < j < post.nodes_listening@.len() ==> post.nodes_listening@[i].0@
                != post.nodes_listening@[j].0@,
        forall|i: int|
            0 <= i < post.nodes_listening@.len() ==> (
            #[trigger] post.nodes_listening@[i]).1@.no_duplicates(),
        forall|e: Seq<char>, n: usize|
            listed(post.nodes_listening@, e, n) == (pre.is_listening(e, n) && n != id),
        post.tree.nodes@.len() == pre.tree.nodes@.len(),
        forall|k: int| post.tree.present(k) == pre.tree.present(k),
        forall|k: int|
            pre.tree.present(k) && k != id ==> post.tree.content_of(k) == pre.tree.content_of(k),
        pre.tree.present(id as int),
        listeners_of(post.tree.content_of(id as int)) == Set::<Seq<char>>::empty(),
    ensures
        post.index_wf(),
{
    assert forall|i: int, j: int|
        0 <= i < post.nodes_listening@.len() && 0 <= j
            < post.nodes_listening@[i].1@.len() implies {
        let n = #[trigger] post.nodes_listening@[i].1@[j];
        &&& post.tree.present(n as int)
        &&& listeners_of(post.tree.content_of(n as int)).contains(post.nodes_listening@[i].0@)
    } by {
        let n = post.nodes_listening@[i].1@[j];
        let e = post.nodes_listening@[i].0@;
        assert(post.nodes_listening@[i].1@.contains(n));
        assert(listed(post.nodes_listening@, e, n));
        assert(pre.is_listening(e, n) && n != id);
        let q = choose|q: int|
            0 <= q < pre.nodes_listening@.len() && (#[trigger] pre.nodes_listening@[q]).0@ == e
                && pre.nodes_listening@[q].1@.contains(n);
        let w = choose|w: int|
            0 <= w < pre.nodes_listening@[q].1@.len() && pre.nodes_listening@[q].1@[w] == n;
        assert(pre.tree.present(n as int));
        assert(listeners_of(pre.tree.content_of(n as int)).contains(e));
    }
    assert forall|n: int, e: Seq<char>|
        post.tree.present(n) && #[trigger] listeners_of(post.tree.content_of(n)).contains(
            e,
        ) implies post.is_listening(e, n as usize) by {
        assert(post.tree.nodes@.len() <= usize::MAX) by {
            assert(post.tree.nodes.len() == post.tree.nodes@.len());
        }
        assert((n as usize) as int == n);
        assert(pre.tree.present(n));
        if n == id {
            assert(listeners_of(post.tree.content_of(id as int)).contains(e));
            assert(false);
        } else {
            assert(listeners_of(pre.tree.content_of(n)).contains(e));
            assert(pre.is_listening(e, n as usize));
        }
    }
}

/// Ascending drain order for work items: height first, then node
/// identity, then pass identity.
pub open spec fn wi_before(a: WorkItem, b: WorkItem) -> bool {
    ||| a.height < b.height
    ||| (a.height == b.height && a.node < b.node)
    ||| (a.height == b.height && a.node == b.node && a.pass < b.pass)
}

/// Sort distinct work items into ascending drain order.
fn sort_work(v: Vec<WorkItem>) -> (r: Vec<WorkItem>)
    requires
        v@.no_duplicates(),
    ensures
        r@.no_duplicates(),
        forall|w: WorkItem| #[trigger] r@.contains(w) == v@.contains(w),
        forall|i: int, j: int| 0 <= i < j < r@.len() ==> wi_before(r@[i], r@[j]),
{
    let mut src = v;
    let mut out: Vec<WorkItem> = Vec::new();
    while src.len() > 0
        invariant
            out@.no_duplicates(),
            src@.no_duplicates(),
            forall|w: WorkItem| !(out@.contains(w) && src@.contains(w)),
            forall|w: WorkItem| (out@.contains(w) || src@.contains(w)) == #[trigger] v@.contains(
                w,
            ),
            forall|i: int, j: int| 0 <= i < j < out@.len() ==> wi_before(out@[i], out@[j]),
            forall|i: int, j: int|
                0 <= i < out@.len() && 0 <= j < src@.len() ==> wi_before(out@[i], src@[j]),
        decreases src@.len(),
    {
        let mut best: usize = 0;
        let mut j: usize = 1;
        while j < src.len()
            invariant
                src@.len() > 0,
                best < src@.len(),
                j <= src@.len(),
                src@.no_duplicates(),
                forall|q: int|
                    0 <= q < j && q != best ==> wi_before(src@[best as int], #[trigger] src@[q]),
            decreases src@.len() - j,
        {
            let b = &src[best];
            let c = &src[j];
            let better = c.height < b.height || (c.height == b.height && (c.node < b.node || (
            c.node == b.node && c.pass < b.pass)));
            if better {
                best = j;
            }
            j += 1;
        }
        let ghost srcpre = src@;
        let ghost outpre = out@;
        let x = src.remove(best);
        out.push(x);
        proof {
            assert(x == srcpre[best as int]);
            assert(srcpre.contains(x));
            assert(!outpre.contains(x));
            assert(out@ == outpre.push(x));
            assert forall|w: WorkItem| #[trigger] src@.contains(w) implies srcpre.contains(w)
                && w != x by {
                let q = choose|q: int| 0 <= q < src@.len() && src@[q] == w;
                let sq = if q < best {
                    q
                } else {
                    q + 1
                };
                assert(srcpre[sq] == w);
            }
            assert(src@.no_duplicates()) by {
                assert forall|a: int, b: int|
                    0 <= a < b < src@.len() implies src@[a] != src@[b] by {
                    let sa = if a < best {
                        a
                    } else {
                        a + 1
                    };
                    let sb = if b < best {
                        b
                    } else {
                        b + 1
                    };
                    assert(src@[a] == srcpre[sa] && src@[b] == srcpre[sb]);
                }
            }
            assert(out@.no_duplicates()) by {
                assert forall|a: int, b: int|
                    0 <= a < b < out@.len() implies out@[a] != out@[b] by {
                    if b == out@.len() - 1 {
                        assert(out@[a] == outpre[a]);
                        assert(outpre.contains(outpre[a]));
                    }
                }
            }
            assert forall|w: WorkItem|
                (out@.contains(w) || src@.contains(w)) == #[trigger] v@.contains(w) by {
                if out@.contains(w) {
                    let q = choose|q: int| 0 <= q < out@.len() && out@[q] == w;
                    if q < out@.len() - 1 {
                        assert(outpre[q] == w);
                        assert(outpre.contains(w));
                    } else {
                        assert(w == x);
                    }
                }
                if v@.contains(w) {
                    assert(outpre.contains(w) || srcpre.contains(w));
                    if outpre.contains(w) {
                        let q = choose|q: int| 0 <= q < outpre.len() && outpre[q] == w;
                        assert(out@[q] == w);
                    } else {
                        if w == x {
                            assert(out@[out@.len() - 1] == x);
                        } else {
                            let q = choose|q: int| 0 <= q < srcpre.len() && srcpre[q] == w;
                            let sq = if q < best {
                                q
                            } else {
                                q - 1
                            };
                            if q != best {
                                assert(src@[sq] == w);
                            }
                        }
                    }
                }
            }
            assert forall|i: int, j2: int|
                0 <= i < out@.len() && 0 <= j2 < src@.len() implies wi_before(
                out@[i],
                src@[j2],
            ) by {
                let sa = if j2 < best {
                    j2
                } else {
                    j2 + 1
                };
                assert(src@[j2] == srcpre[sa]);
                if i == out@.len() - 1 {
                    assert(out@[i] == x);
                    assert(wi_before(srcpre[best as int], srcpre[sa]));
                } else {
                    assert(srcpre.contains(srcpre[sa]));
                }
            }
        }
    }
    out
}

/// The position of the index entry for event name `ev`.
fn idx_lookup(v: &Vec<(String, Vec<usize>)>, ev: &String) -> (r: Option<usize>)
    ensures
        match r {
            Some(i) => i < v@.len() && v@[i as int].0@ == ev@,
            None => forall|i: int| 0 <= i < v@.len() ==> (#[trigger] v@[i]).0@ != ev@,
        },
{
    let mut i: usize = 0;
    while i < v.len()
        invariant
            i <= v@.len(),
            forall|j: int| 0 <= j < i ==> (#[trigger] v@[j]).0@ != ev@,
        decreases v@.len() - i,
    {
        if v[i].0 == *ev {
            return Some(i);
        }
        i += 1;
    }
    None
}

/// Record `id` as listening for `ev` in the raw index.
fn idx_add(v: &mut Vec<(String, Vec<usize>)>, ev: &String, id: usize)
    requires
        forall|i: int, j: int| 0 <= i < j < old(v)@.len() ==> old(v)@[i].0@ != old(v)@[j].0@,
        forall|i: int| 0 <= i < old(v)@.len() ==> (#[trigger] old(v)@[i]).1@.no_duplicates(),
    ensures
        forall|i: int, j: int|
            0 <= i < j < final(v)@.len() ==> final(v)@[i].0@ != final(v)@[j].0@,
        forall|i: int| 0 <= i < final(v)@.len() ==> (#[trigger] final(v)@[i]).1@.no_duplicates(),
        forall|e: Seq<char>, n: usize|
            listed(final(v)@, e, n) == (listed(old(v)@, e, n) || (e == ev@ && n == id)),
{
    let ghost pre = v@;
    match idx_lookup(v, ev) {
        Some(i) => {
            let present = {
                let entry = &v[i];
                find_usize(&entry.1, id)
            };
            if present.is_none() {
                let ghost entpre = v@[i as int];
                match &mut v[i] {
                    (_, ids) => {
                        ids.push(id);
                    },
                }
                proof {
                    assert(v@[i as int].0 == entpre.0);
                    assert(v@[i as int].1@ == entpre.1@.push(id));
                    assert(forall|k: int| 0 <= k < v@.len() && k != i ==> v@[k] == pre[k]);
                    assert forall|e: Seq<char>, n: usize|
                        listed(v@, e, n) == (listed(pre, e, n) || (e == ev@ && n == id)) by {
                        if listed(v@, e, n) {
                            let q = choose|q: int|
                                0 <= q < v@.len() && (#[trigger] v@[q]).0@ == e
                                    && v@[q].1@.contains(n);
                            if q == i {
                                if n != id {
                                    let w = choose|w: int|
                                        0 <= w < v@[q].1@.len() && v@[q].1@[w] == n;
                                    assert(pre[q].1@[w] == n);
                                    assert(listed(pre, e, n));
                                }
                            } else {
                                assert(listed(pre, e, n));
                            }
                        }
                        if listed(pre, e, n) {
                            let q = choose|q: int|
                                0 <= q < pre.len() && (#[trigger] pre[q]).0@ == e
                                    && pre[q].1@.contains(n);
                            if q == i {
                                let w = choose|w: int|
                                    0 <= w < pre[q].1@.len() && pre[q].1@[w] == n;
                                assert(v@[q].1@[w] == n);
                            }
                            assert(listed(v@, e, n));
                        }
                        if e == ev@ && n == id {
                            assert(v@[i as int].1@.last() == id);
                            assert(listed(v@, e, n));
                        }
                    }
                }
            } else {
                proof {
                    assert forall|e: Seq<char>, n: usize|
                        listed(v@, e, n) == (listed(pre, e, n) || (e == ev@ && n == id)) by {
                        if e == ev@ && n == id {
                            assert(v@[i as int].1@.contains(id));
                            assert(listed(v@, e, n));
                        }
                    }
                }
            }
        },
        None => {
            let mut ids: Vec<usize> = Vec::new();
            ids.push(id);
            v.push((ev.clone(), ids));
            proof {
                assert(v@.len() == pre.len() + 1);
                assert(v@[pre.len() as int].0@ == ev@);
                assert(v@[pre.len() as int].1@ == Seq::<usize>::empty().push(id));
                assert(forall|k: int| 0 <= k < pre.len() ==> v@[k] == pre[k]);
                assert forall|e: Seq<char>, n: usize|
                    listed(v@, e, n) == (listed(pre, e, n) || (e == ev@ && n == id)) by {
                    if listed(v@, e, n) {
                        let q = choose|q: int|
                            0 <= q < v@.len() && (#[trigger] v@[q]).0@ == e && v@[q].1@.contains(
                                n,
                            );
                        if q == pre.len() {
                            assert(e == ev@ && n == id);
                        } else {
                            assert(listed(pre, e, n));
                        }
                    }
                    if listed(pre, e, n) {
                        let q = choose|q: int|
                            0 <= q < pre.len() && (#[trigger] pre[q]).0@ == e && pre[q].1@
                                .contains(n);
                        assert(v@[q].1@.contains(n));
                        assert(listed(v@, e, n));
                    }
                    if e == ev@ && n == id {
                        assert(v@[pre.len() as int].1@[0] == id);
                        assert(listed(v@, e, n));
                    }
                }
            }
        },
    }
}

/// Strike `id` from the entry for `ev` in the raw index.
fn idx_remove(v: &mut Vec<(String, Vec<usize>)>, ev: &String, id: usize)
    requires
        forall|i: int, j: int| 0 <= i < j < old(v)@.len() ==> old(v)@[i].0@ != old(v)@[j].0@,
        forall|i: int| 0 <= i < old(v)@.len() ==> (#[trigger] old(v)@[i]).1@.no_duplicates(),
    ensures
        forall|i: int, j: int|
            0 <= i < j < final(v)@.len() ==> final(v)@[i].0@ != final(v)@[j].0@,
        forall|i: int| 0 <= i < final(v)@.len() ==> (#[trigger] final(v)@[i]).1@.no_duplicates(),
        forall|e: Seq<char>, n: usize|
            listed(final(v)@, e, n) == (listed(old(v)@, e, n) && !(e == ev@ && n == id)),
{
    let ghost pre = v@;
    match idx_lookup(v, ev) {
        Some(i) => {
            let found = {
                let entry = &v[i];
                find_usize(&entry.1, id)
            };
            match found {
                Some(w) => {
                    let ghost entpre = v@[i as int];
                    match &mut v[i] {
                        (_, ids) => {
                            ids.remove(w);
                        },
                    }
                    proof {
                        assert(v@[i as int].0 == entpre.0);
                        assert(v@[i as int].1@ == entpre.1@.remove(w as int));
                        assert(forall|k: int| 0 <= k < v@.len() && k != i ==> v@[k] == pre[k]);
                        assert(v@[i as int].1@.no_duplicates()) by {
                            let s = entpre.1@;
                            assert forall|a: int, b: int|
                                0 <= a < b < v@[i as int].1@.len() implies v@[i as int].1@[a]
                                != v@[i as int].1@[b] by {
                                let sa = if a < w {
                                    a
                                } else {
                                    a + 1
                                };
                                let sb = if b < w {
                                    b
                                } else {
                                    b + 1
                                };
                                assert(v@[i as int].1@[a] == s[sa] && v@[i as int].1@[b] == s[sb]);
                            }
                        }
                        assert forall|e: Seq<char>, n: usize|
                            listed(v@, e, n) == (listed(pre, e, n) && !(e == ev@ && n == id)) by {
                            crate::tree::lemma_remove_membership(entpre.1@, w as int, n);
                            if listed(v@, e, n) {
                                let q = choose|q: int|
                                    0 <= q < v@.len() && (#[trigger] v@[q]).0@ == e
                                        && v@[q].1@.contains(n);
                                assert(pre[q].1@.contains(n));
                                assert(listed(pre, e, n));
                                if e == ev@ {
                                    assert(q == i);
                                    assert(n != id);
                                }
                            }
                            if listed(pre, e, n) && !(e == ev@ && n == id) {
                                let q = choose|q: int|
                                    0 <= q < pre.len() && (#[trigger] pre[q]).0@ == e
                                        && pre[q].1@.contains(n);
                                if q == i {
                                    assert(n != id);
                                    assert(v@[q].1@.contains(n));
                                } else {
                                    assert(v@[q].1@.contains(n));
                                }
                                assert(listed(v@, e, n));
                            }
                        }
                    }
                },
                None => {
                    proof {
                        assert forall|e: Seq<char>, n: usize|
                            listed(v@, e, n) == (listed(pre, e, n) && !(e == ev@ && n == id)) by {
                            if listed(pre, e, n) && e == ev@ && n == id {
                                let q = choose|q: int|
                                    0 <= q < pre.len() && (#[trigger] pre[q]).0@ == e
                                        && pre[q].1@.contains(n);
                                assert(q == i);
                            }
                        }
                    }
                },
            }
        },
        None => {
            proof {
                assert forall|e: Seq<char>, n: usize|
                    listed(v@, e, n) == (listed(pre, e, n) && !(e == ev@ && n == id)) by {
                    if listed(pre, e, n) && e == ev@ && n == id {
                        let q = choose|q: int|
                            0 <= q < pre.len() && (#[trigger] pre[q]).0@ == e && pre[q].1@
                                .contains(n);
                    }
                }
            }
        },
    }
}

/// A structural edit that leaves presence and contents alone leaves the
/// listener index sound, and pending entries stay under issued identities.
proof fn lemma_index_wf_after_structural(pre: RealDom, post: RealDom)
    requires
        pre.wf(),
        post.nodes_listening == pre.nodes_listening,
        post.tree.nodes@.len() >= pre.tree.nodes@.len(),
        forall|k: int| post.tree.present(k) == pre.tree.present(k),
        forall|k: int|
            pre.tree.present(k) ==> post.tree.content_of(k) == pre.tree.content_of(k),
        forall|k: usize|
            #[trigger] post.dirty_nodes.pending_passes().dom().contains(k)
                ==> pre.dirty_nodes.pending_passes().dom().contains(k) || (k as int)
                < post.tree.nodes@.len(),
        forall|k: usize|
            #[trigger] post.dirty_nodes.pending_masks().dom().contains(k)
                ==> pre.dirty_nodes.pending_masks().dom().contains(k) || (k as int)
                < post.tree.nodes@.len(),
    ensures
        post.index_wf(),
        forall|k: usize|
            #[trigger] post.dirty_nodes.pending_passes().dom().contains(k) ==> (k as int)
                < post.tree.nodes@.len(),
        forall|k: usize|
            #[trigger] post.dirty_nodes.pending_masks().dom().contains(k) ==> (k as int)
                < post.tree.nodes@.len(),
{
    assert forall|i: int, j: int|
        0 <= i < post.nodes_listening@.len() && 0 <= j < post.nodes_listening@[i].1@.len() implies {
        let n = #[trigger] post.nodes_listening@[i].1@[j];
        &&& post.tree.present(n as int)
        &&& listeners_of(post.tree.content_of(n as int)).contains(post.nodes_listening@[i].0@)
    } by {
        let n = pre.nodes_listening@[i].1@[j];
        assert(pre.tree.present(n as int));
    }
}

} // verus!
