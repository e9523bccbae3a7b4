//! Pass descriptors, the one-time inversion of their dependency edges, and
//! the dirty tracker that accumulates pending work between resolution
//! cycles.
use vstd::prelude::*;

use rustc_hash::{FxHashMap, FxHashSet};

use crate::fx::{fx_map_insert, fx_map_new, fx_map_remove, fx_set_insert, fx_set_new};
use crate::node_ref::{mv_empty, mv_overlaps, mv_union, MaskView, NodeMask};

verus! {

/// One externally defined derived-state computation: its identity, the
/// facets it reads, whether it depends on parent or aggregated child state,
/// the passes it reads, and — filled in at construction — the passes that
/// read it.
pub struct PassDescriptor {
    pub id: u64,
    pub mask: NodeMask,
    pub parent_dependant: bool,
    pub child_dependant: bool,
    pub dependencies: Vec<u64>,
    pub dependants: Vec<u64>,
}

/// The identities in a list, as a set.
pub open spec fn u64_set(v: Seq<u64>) -> Set<u64> {
    Set::new(|x: u64| v.contains(x))
}

/// The identities of all passes of a registry.
pub open spec fn pass_ids(ps: Seq<PassDescriptor>) -> Set<u64> {
    Set::new(|x: u64| exists|i: int| 0 <= i < ps.len() && #[trigger] ps[i].id == x)
}

/// No two passes of the registry share an identity.
pub open spec fn pass_ids_unique(ps: Seq<PassDescriptor>) -> bool {
    forall|i: int, j: int| 0 <= i < j < ps.len() ==> ps[i].id != ps[j].id
}

/// The identities of the passes flagged as depending on parent state.
pub open spec fn parent_dependant_ids(ps: Seq<PassDescriptor>) -> Set<u64> {
    Set::new(
        |x: u64|
            exists|i: int|
                0 <= i < ps.len() && #[trigger] ps[i].id == x && ps[i].parent_dependant,
    )
}

/// The identities of the passes flagged as depending on child state.
pub open spec fn child_dependant_ids(ps: Seq<PassDescriptor>) -> Set<u64> {
    Set::new(
        |x: u64|
            exists|i: int| 0 <= i < ps.len() && #[trigger] ps[i].id == x && ps[i].child_dependant,
    )
}

/// The identities of the passes whose declared interest overlaps `mv`.
pub open spec fn interested_ids(ps: Seq<PassDescriptor>, mv: MaskView) -> Set<u64> {
    Set::new(
        |x: u64|
            exists|i: int|
                0 <= i < ps.len() && #[trigger] ps[i].id == x && mv_overlaps(ps[i].mask@, mv),
    )
}

/// The direct dependants a registry derives for its entry `k`: every other
/// pass whose declared dependency set names `k`'s identity.
pub open spec fn direct_dependants(ps: Seq<PassDescriptor>, k: int) -> Set<u64> {
    Set::new(
        |x: u64|
            exists|i: int|
                0 <= i < ps.len() && i != k && #[trigger] ps[i].id == x
                    && ps[i].dependencies@.contains(ps[k].id),
    )
}

/// Everything of a descriptor but its dependant list.
pub open spec fn same_except_dependants(a: PassDescriptor, b: PassDescriptor) -> bool {
    a.id == b.id && a.mask == b.mask && a.parent_dependant == b.parent_dependant
        && a.child_dependant == b.child_dependant && a.dependencies == b.dependencies
}

/// Whether some identity of the list equals `x`.
pub(crate) fn contains_u64(v: &Vec<u64>, x: u64) -> (r: bool)
    ensures
        r == v@.contains(x),
{
    let mut i: usize = 0;
    while i < v.len()
        invariant
            i <= v@.len(),
            forall|j: int| 0 <= j < i ==> v@[j] != x,
        decreases v@.len() - i,
    {
        if v[i] == x {
            return true;
        }
        i += 1;
    }
    false
}

/// Copy a list of identities.
pub(crate) fn copy_u64s(v: &Vec<u64>) -> (r: Vec<u64>)
    ensures
        r@ == v@,
{
    let mut r: Vec<u64> = Vec::new();
    let mut i: usize = 0;
    while i < v.len()
        invariant
            i <= v@.len(),
            r@ == v@.subrange(0, i as int),
        decreases v@.len() - i,
    {
        r.push(v[i]);
        i += 1;
    }
    proof {
        assert(r@ =~= v@);
    }
    r
}

/// Invert the declared dependency edges of a registry, once: for every
/// ordered pair of distinct passes, if one names the other as a dependency,
/// the named pass gains the naming pass as a dependant.
pub fn resolve_dependants(passes: &mut Vec<PassDescriptor>)
    requires
        pass_ids_unique(old(passes)@),
        forall|k: int| 0 <= k < old(passes)@.len() ==> old(passes)@[k].dependants@.len() == 0,
    ensures
        final(passes)@.len() == old(passes)@.len(),
        forall|k: int|
            0 <= k < final(passes)@.len() ==> same_except_dependants(
                #[trigger] final(passes)@[k],
                old(passes)@[k],
            ),
        forall|k: int|
            0 <= k < final(passes)@.len() ==> u64_set(#[trigger] final(passes)@[k].dependants@)
                == direct_dependants(old(passes)@, k),
        forall|k: int|
            0 <= k < final(passes)@.len() ==> (#[trigger] final(passes)@[k].dependants@).no_duplicates(),
{
    let ghost orig: Seq<PassDescriptor> = passes@;
    let n = passes.len();
    let mut i: usize = 0;
    while i < n
        invariant
            n == passes@.len() == orig.len(),
            pass_ids_unique(orig),
            i <= n,
            forall|k: int|
                0 <= k < n ==> same_except_dependants(#[trigger] passes@[k], orig[k]),
            forall|k: int|
                0 <= k < n ==> u64_set(#[trigger] passes@[k].dependants@) == dd_prefix(
                    orig,
                    k,
                    i as int,
                ),
            forall|k: int| 0 <= k < n ==> (#[trigger] passes@[k].dependants@).no_duplicates(),
        decreases n - i,
    {
        let dep_i = copy_u64s(&passes[i].dependencies);
        let id_i = passes[i].id;
        let mut j: usize = 0;
        while j < n
            invariant
                n == passes@.len() == orig.len(),
                pass_ids_unique(orig),
                i < n,
                j <= n,
                dep_i@ == orig[i as int].dependencies@,
                id_i == orig[i as int].id,
                forall|k: int|
                    0 <= k < n ==> same_except_dependants(#[trigger] passes@[k], orig[k]),
                forall|k: int|
                    0 <= k < j ==> u64_set(#[trigger] passes@[k].dependants@) == dd_prefix(
                        orig,
                        k,
                        i + 1,
                    ),
                forall|k: int|
                    j <= k < n ==> u64_set(#[trigger] passes@[k].dependants@) == dd_prefix(
                        orig,
                        k,
                        i as int,
                    ),
                forall|k: int| 0 <= k < n ==> (#[trigger] passes@[k].dependants@).no_duplicates(),
            decreases n - j,
        {
            let ghost before: Seq<PassDescriptor> = passes@;
            if i != j && contains_u64(&dep_i, passes[j].id) {
                proof {
                    assert(!u64_set(passes@[j as int].dependants@).contains(id_i)) by {
                        if passes@[j as int].dependants@.contains(id_i) {
                            let w = choose|w: int|
                                0 <= w < orig.len() && w != j && orig[w].id == id_i
                                    && orig[w].dependencies@.contains(orig[j as int].id) && w < i;
                        }
                    }
                }
                passes[j].dependants.push(id_i);
                proof {
                    assert(passes@[j as int].dependants@ == before[j as int].dependants@.push(
                        id_i,
                    ));
                    assert forall|k: int| 0 <= k < n && k != j implies passes@[k]
                        == before[k] by {}
                    assert(u64_set(passes@[j as int].dependants@) =~= dd_prefix(
                        orig,
                        j as int,
                        i + 1,
                    )) by {
                        assert forall|x: u64|
                            u64_set(passes@[j as int].dependants@).contains(x) implies dd_prefix(
                            orig,
                            j as int,
                            i + 1,
                        ).contains(x) by {
                            let q = choose|q: int|
                                0 <= q < passes@[j as int].dependants@.len()
                                    && passes@[j as int].dependants@[q] == x;
                            if q < before[j as int].dependants@.len() {
                                assert(before[j as int].dependants@[q] == x);
                                assert(u64_set(before[j as int].dependants@).contains(x));
                                assert(dd_prefix(orig, j as int, i as int).contains(x));
                                let w = choose|w: int|
                                    0 <= w < i && w != j && #[trigger] orig[w].id == x
                                        && orig[w].dependencies@.contains(orig[j as int].id);
                                assert(orig[w].id == x);
                            } else {
                                assert(x == id_i);
                                assert(orig[i as int].id == x);
                                assert(orig[i as int].dependencies@.contains(orig[j as int].id));
                            }
                        }
                        assert forall|x: u64|
                            dd_prefix(orig, j as int, i + 1).contains(x) implies u64_set(
                            passes@[j as int].dependants@,
                        ).contains(x) by {
                            let w = choose|w: int|
                                0 <= w < i + 1 && w != j && #[trigger] orig[w].id == x
                                    && orig[w].dependencies@.contains(orig[j as int].id);
                            if w < i {
                                assert(u64_set(before[j as int].dependants@).contains(x));
                                let q = choose|q: int|
                                    0 <= q < before[j as int].dependants@.len()
                                        && before[j as int].dependants@[q] == x;
                                assert(passes@[j as int].dependants@[q] == x);
                            } else {
                                assert(passes@[j as int].dependants@.last() == x);
                            }
                        }
                    }
                }
            } else {
                proof {
                    assert(u64_set(passes@[j as int].dependants@) =~= dd_prefix(
                        orig,
                        j as int,
                        i + 1,
                    )) by {
                        assert forall|x: u64|
                            dd_prefix(orig, j as int, i + 1).contains(x) implies dd_prefix(
                            orig,
                            j as int,
                            i as int,
                        ).contains(x) by {
                            let w = choose|w: int|
                                0 <= w < i + 1 && w != j && #[trigger] orig[w].id == x
                                    && orig[w].dependencies@.contains(orig[j as int].id);
                            assert(w != i);
                        }
                    }
                }
            }
            proof {
                assert forall|k: int|
                    j + 1 <= k < n implies u64_set(#[trigger] passes@[k].dependants@) == dd_prefix(
                    orig,
                    k,
                    i as int,
                ) by {}
            }
            j += 1;
        }
        i += 1;
    }
    proof {
        assert forall|k: int|
            0 <= k < n implies u64_set(#[trigger] passes@[k].dependants@) == direct_dependants(
            orig,
            k,
        ) by {
            assert(dd_prefix(orig, k, n as int) =~= direct_dependants(orig, k));
        }
    }
}

/// A pending map of per-node pass sets, after passes `add` were marked for
/// node `id`.
pub open spec fn passes_marked(p: Map<usize, Set<u64>>, id: usize, add: Set<u64>) -> Map<
    usize,
    Set<u64>,
> {
    if p.dom().contains(id) {
        p.insert(id, p[id].union(add))
    } else {
        p.insert(id, add)
    }
}

/// A pending map of per-node change masks, after mask `mv` was marked for
/// node `id`.
pub open spec fn mask_marked(m: Map<usize, MaskView>, id: usize, mv: MaskView) -> Map<
    usize,
    MaskView,
> {
    if m.dom().contains(id) {
        m.insert(id, mv_union(m[id], mv))
    } else {
        m.insert(id, mv)
    }
}

/// Whether mask `b` covers everything mask `a` covers.
pub open spec fn mv_covers(a: MaskView, b: MaskView) -> bool {
    &&& (a.tag ==> b.tag)
    &&& (a.namespace ==> b.namespace)
    &&& (a.text ==> b.text)
    &&& (a.listeners ==> b.listeners)
    &&& (match (a.attrs, b.attrs) {
        (_, None) => true,
        (None, Some(_)) => false,
        (Some(s1), Some(s2)) => s1.subset_of(s2),
    })
}

/// Marking masks is order-independent and monotonic: the two orders agree,
/// both equal one mark with the union, and the pending mask of the node
/// only ever grows.
pub proof fn lemma_mask_mark_order_independent(m: Map<usize, MaskView>, id: usize, a: MaskView, b: MaskView)
    ensures
        mask_marked(mask_marked(m, id, a), id, b) == mask_marked(mask_marked(m, id, b), id, a),
        mask_marked(mask_marked(m, id, a), id, b) == mask_marked(m, id, mv_union(a, b)),
        m.dom().contains(id) ==> mv_covers(m[id], mask_marked(m, id, a)[id]),
{
    crate::node_ref::lemma_mask_union_commutes(a, b);
    if m.dom().contains(id) {
        crate::node_ref::lemma_mask_union_assoc(m[id], a, b);
        crate::node_ref::lemma_mask_union_assoc(m[id], b, a);
        assert(mv_union(m[id], mv_union(b, a)) == mv_union(m[id], mv_union(a, b)));
    }
    assert(mask_marked(mask_marked(m, id, a), id, b) =~= mask_marked(
        mask_marked(m, id, b),
        id,
        a,
    ));
    assert(mask_marked(mask_marked(m, id, a), id, b) =~= mask_marked(m, id, mv_union(a, b)));
}

/// Marking pass sets is order-independent and monotonic in the same way.
pub proof fn lemma_pass_mark_order_independent(p: Map<usize, Set<u64>>, id: usize, a: Set<u64>, b: Set<u64>)
    ensures
        passes_marked(passes_marked(p, id, a), id, b) == passes_marked(passes_marked(p, id, b), id, a),
        passes_marked(passes_marked(p, id, a), id, b) == passes_marked(p, id, a.union(b)),
        p.dom().contains(id) ==> p[id].subset_of(passes_marked(p, id, a)[id]),
{
    if p.dom().contains(id) {
        assert(p[id].union(a).union(b) =~= p[id].union(b).union(a));
        assert(p[id].union(a).union(b) =~= p[id].union(a.union(b)));
    } else {
        assert(a.union(b) =~= b.union(a));
    }
    assert(passes_marked(passes_marked(p, id, a), id, b) =~~= passes_marked(
        passes_marked(p, id, b),
        id,
        a,
    ));
    assert(passes_marked(passes_marked(p, id, a), id, b) =~~= passes_marked(
        p,
        id,
        a.union(b),
    ));
}

/// The dirty tracker: per node, the pending pass identities and the pending
/// union of change masks, accumulated between two resolution cycles.
pub struct NodesDirty {
    pub passes_updated: FxHashMap<usize, FxHashSet<u64>>,
    pub nodes_updated: FxHashMap<usize, NodeMask>,
    pub passes: Vec<PassDescriptor>,
}

impl NodesDirty {
    /// The pending pass identities, per node.
    pub open spec fn pending_passes(self) -> Map<usize, Set<u64>> {
        self.passes_updated@.map_values(|s: FxHashSet<u64>| s@)
    }

    /// The pending change masks, per node.
    pub open spec fn pending_masks(self) -> Map<usize, MaskView> {
        self.nodes_updated@.map_values(|m: NodeMask| m@)
    }

    /// A fresh tracker for the given registry, with nothing pending.
    pub fn new(passes: Vec<PassDescriptor>) -> (r: NodesDirty)
        ensures
            r.passes == passes,
            r.pending_passes() == Map::<usize, Set<u64>>::empty(),
            r.pending_masks() == Map::<usize, MaskView>::empty(),
    {
        let r = NodesDirty {
            passes_updated: fx_map_new(),
            nodes_updated: fx_map_new(),
            passes,
        };
        proof {
            assert(r.passes_updated@ =~= Map::<usize, FxHashSet<u64>>::empty());
            assert(r.nodes_updated@ =~= Map::<usize, NodeMask>::empty());
            assert(r.pending_passes() =~~= Map::<usize, Set<u64>>::empty());
            assert(r.pending_masks() =~~= Map::<usize, MaskView>::empty());
        }
        r
    }

    /// Take the pending pass set of one node out of the tracker, leaving no
    /// entry for it.
    pub fn take_pending_passes(&mut self, id: usize) -> (r: Option<FxHashSet<u64>>)
        ensures
            final(self).passes == old(self).passes,
            final(self).pending_masks() == old(self).pending_masks(),
            final(self).pending_passes() == old(self).pending_passes().remove(id),
            match r {
                Some(s) => old(self).pending_passes().dom().contains(id) && s@ == old(
                    self,
                ).pending_passes()[id],
                None => !old(self).pending_passes().dom().contains(id),
            },
    {
        let r = fx_map_remove(&mut self.passes_updated, id);
        proof {
            assert(self.pending_passes() =~~= old(self).pending_passes().remove(id));
        }
        r
    }

    /// Take the pending mask of one node out of the tracker.
    pub fn take_pending_mask(&mut self, id: usize) -> (r: Option<NodeMask>)
        ensures
            final(self).passes == old(self).passes,
            final(self).pending_passes() == old(self).pending_passes(),
            final(self).pending_masks() == old(self).pending_masks().remove(id),
            match r {
                Some(m) => old(self).pending_masks().dom().contains(id) && m@ == old(
                    self,
                ).pending_masks()[id],
                None => !old(self).pending_masks().dom().contains(id),
            },
    {
        let r = fx_map_remove(&mut self.nodes_updated, id);
        proof {
            assert(self.pending_masks() =~~= old(self).pending_masks().remove(id));
        }
        r
    }

    /// Mark `mask` dirty for one node: every pass whose interest overlaps
    /// the mask becomes pending for the node, and the mask joins the node's
    /// pending change mask.
    pub fn mark_dirty(&mut self, id: usize, mask: NodeMask)
        ensures
            final(self).passes == old(self).passes,
            final(self).pending_passes() == passes_marked(
                old(self).pending_passes(),
                id,
                interested_ids(old(self).passes@, mask@),
            ),
            final(self).pending_masks() == mask_marked(old(self).pending_masks(), id, mask@),
    {
        let ghost pre = *self;
        let mut set = match fx_map_remove(&mut self.passes_updated, id) {
            Some(s) => s,
            None => fx_set_new(),
        };
        let ghost base: Set<u64> = set@;
        let n = self.passes.len();
        let mut i: usize = 0;
        while i < n
            invariant
                n == self.passes@.len(),
                i <= n,
                self.nodes_updated == pre.nodes_updated,
                self.passes == pre.passes,
                self.passes_updated@ == pre.passes_updated@.remove(id),
                set@ == base.union(filtered_prefix(self.passes@, mask@, i as int)),
            decreases n - i,
        {
            let ghost sbefore = set@;
            if self.passes[i].mask.overlaps(&mask) {
                fx_set_insert(&mut set, self.passes[i].id);
            }
            proof {
                assert(set@ =~= base.union(filtered_prefix(self.passes@, mask@, i + 1)));
            }
            i += 1;
        }
        fx_map_insert(&mut self.passes_updated, id, set);
        let merged = match fx_map_remove(&mut self.nodes_updated, id) {
            Some(m0) => m0.union(&mask),
            None => mask,
        };
        fx_map_insert(&mut self.nodes_updated, id, merged);
        proof {
            assert(filtered_prefix(pre.passes@, mask@, n as int) =~= interested_ids(
                pre.passes@,
                mask@,
            ));
            if pre.pending_passes().dom().contains(id) {
                assert(base == pre.pending_passes()[id]);
            } else {
                assert(base.union(interested_ids(pre.passes@, mask@)) =~= interested_ids(
                    pre.passes@,
                    mask@,
                ));
            }
            assert(self.pending_passes() =~~= passes_marked(
                pre.pending_passes(),
                id,
                interested_ids(pre.passes@, mask@),
            ));
            assert(self.pending_masks() =~~= mask_marked(pre.pending_masks(), id, mask@));
        }
    }

    /// Mark every parent-dependant pass pending for one node.
    pub fn mark_parent_added_or_removed(&mut self, id: usize)
        ensures
            final(self).passes == old(self).passes,
            final(self).pending_masks() == old(self).pending_masks(),
            final(self).pending_passes() == passes_marked(
                old(self).pending_passes(),
                id,
                parent_dependant_ids(old(self).passes@),
            ),
    {
        let ghost pre = *self;
        let mut set = match fx_map_remove(&mut self.passes_updated, id) {
            Some(s) => s,
            None => fx_set_new(),
        };
        let ghost base: Set<u64> = set@;
        let n = self.passes.len();
        let mut i: usize = 0;
        while i < n
            invariant
                n == self.passes@.len(),
                i <= n,
                self.nodes_updated == pre.nodes_updated,
                self.passes == pre.passes,
                self.passes_updated@ == pre.passes_updated@.remove(id),
                set@ == base.union(parent_dep_prefix(self.passes@, i as int)),
            decreases n - i,
        {
            if self.passes[i].parent_dependant {
                fx_set_insert(&mut set, self.passes[i].id);
            }
            proof {
                assert(set@ =~= base.union(parent_dep_prefix(self.passes@, i + 1)));
            }
            i += 1;
        }
        fx_map_insert(&mut self.passes_updated, id, set);
        proof {
            assert(parent_dep_prefix(pre.passes@, n as int) =~= parent_dependant_ids(pre.passes@));
            if pre.pending_passes().dom().contains(id) {
                assert(base == pre.pending_passes()[id]);
            } else {
                assert(base.union(parent_dependant_ids(pre.passes@)) =~= parent_dependant_ids(
                    pre.passes@,
                ));
            }
            assert(self.pending_passes() =~~= passes_marked(
                pre.pending_passes(),
                id,
                parent_dependant_ids(pre.passes@),
            ));
            assert(self.pending_masks() =~~= pre.pending_masks());
        }
    }

    /// Mark every child-dependant pass pending for one node.
    pub fn mark_child_changed(&mut self, id: usize)
        ensures
            final(self).passes == old(self).passes,
            final(self).pending_masks() == old(self).pending_masks(),
            final(self).pending_passes() == passes_marked(
                old(self).pending_passes(),
                id,
                child_dependant_ids(old(self).passes@),
            ),
    {
        let ghost pre = *self;
        let mut set = match fx_map_remove(&mut self.passes_updated, id) {
            Some(s) => s,
            None => fx_set_new(),
        };
        let ghost base: Set<u64> = set@;
        let n = self.passes.len();
        let mut i: usize = 0;
        while i < n
            invariant
                n == self.passes@.len(),
                i <= n,
                self.nodes_updated == pre.nodes_updated,
                self.passes == pre.passes,
                self.passes_updated@ == pre.passes_updated@.remove(id),
                set@ == base.union(child_dep_prefix(self.passes@, i as int)),
            decreases n - i,
        {
            if self.passes[i].child_dependant {
                fx_set_insert(&mut set, self.passes[i].id);
            }
            proof {
                assert(set@ =~= base.union(child_dep_prefix(self.passes@, i + 1)));
            }
            i += 1;
        }
        fx_map_insert(&mut self.passes_updated, id, set);
        proof {
            assert(child_dep_prefix(pre.passes@, n as int) =~= child_dependant_ids(pre.passes@));
            if pre.pending_passes().dom().contains(id) {
                assert(base == pre.pending_passes()[id]);
            } else {
                assert(base.union(child_dependant_ids(pre.passes@)) =~= child_dependant_ids(
                    pre.passes@,
                ));
            }
            assert(self.pending_passes() =~~= passes_marked(
                pre.pending_passes(),
                id,
                child_dependant_ids(pre.passes@),
            ));
            assert(self.pending_masks() =~~= pre.pending_masks());
        }
    }

    /// Mark every registered pass pending for one node, as creation does.
    pub fn mark_all_passes(&mut self, id: usize)
        ensures
            final(self).passes == old(self).passes,
            final(self).pending_masks() == old(self).pending_masks(),
            final(self).pending_passes() == passes_marked(
                old(self).pending_passes(),
                id,
                pass_ids(old(self).passes@),
            ),
    {
        let ghost pre = *self;
        let mut set = match fx_map_remove(&mut self.passes_updated, id) {
            Some(s) => s,
            None => fx_set_new(),
        };
        let ghost base: Set<u64> = set@;
        let n = self.passes.len();
        let mut i: usize = 0;
        while i < n
            invariant
                n == self.passes@.len(),
                i <= n,
                self.nodes_updated == pre.nodes_updated,
                self.passes == pre.passes,
                self.passes_updated@ == pre.passes_updated@.remove(id),
                set@ == base.union(ids_prefix(self.passes@, i as int)),
            decreases n - i,
        {
            fx_set_insert(&mut set, self.passes[i].id);
            proof {
                assert(set@ =~= base.union(ids_prefix(self.passes@, i + 1)));
            }
            i += 1;
        }
        fx_map_insert(&mut self.passes_updated, id, set);
        proof {
            assert(ids_prefix(pre.passes@, n as int) =~= pass_ids(pre.passes@));
            if pre.pending_passes().dom().contains(id) {
                assert(base == pre.pending_passes()[id]);
            } else {
                assert(base.union(pass_ids(pre.passes@)) =~= pass_ids(pre.passes@));
            }
            assert(self.pending_passes() =~~= passes_marked(
                pre.pending_passes(),
                id,
                pass_ids(pre.passes@),
            ));
            assert(self.pending_masks() =~~= pre.pending_masks());
        }
    }

    /// Mark one pass pending for one node, as direct typed-state access
    /// does.
    pub fn mark_pass(&mut self, id: usize, pass_id: u64)
        ensures
            final(self).passes == old(self).passes,
            final(self).pending_masks() == old(self).pending_masks(),
            final(self).pending_passes() == passes_marked(
                old(self).pending_passes(),
                id,
                Set::empty().insert(pass_id),
            ),
    {
        let ghost pre = *self;
        let mut set = match fx_map_remove(&mut self.passes_updated, id) {
            Some(s) => s,
            None => fx_set_new(),
        };
        let ghost base: Set<u64> = set@;
        fx_set_insert(&mut set, pass_id);
        fx_map_insert(&mut self.passes_updated, id, set);
        proof {
            assert(base.insert(pass_id) =~= base.union(Set::empty().insert(pass_id)));
            if pre.pending_passes().dom().contains(id) {
                assert(base == pre.pending_passes()[id]);
            } else {
                assert(base.union(Set::empty().insert(pass_id)) =~= Set::empty().insert(pass_id));
            }
            assert(self.pending_passes() =~~= passes_marked(
                pre.pending_passes(),
                id,
                Set::empty().insert(pass_id),
            ));
            assert(self.pending_masks() =~~= pre.pending_masks());
        }
    }
}

/// The identities among the first `n` passes whose interest overlaps `mv`.
pub open spec fn filtered_prefix(ps: Seq<PassDescriptor>, mv: MaskView, n: int) -> Set<u64> {
    Set::new(
        |x: u64|
            exists|i: int|
                0 <= i < n && #[trigger] ps[i].id == x && mv_overlaps(ps[i].mask@, mv),
    )
}

/// The parent-dependant identities among the first `n` passes.
pub open spec fn parent_dep_prefix(ps: Seq<PassDescriptor>, n: int) -> Set<u64> {
    Set::new(
        |x: u64| exists|i: int| 0 <= i < n && #[trigger] ps[i].id == x && ps[i].parent_dependant,
    )
}

/// The child-dependant identities among the first `n` passes.
pub open spec fn child_dep_prefix(ps: Seq<PassDescriptor>, n: int) -> Set<u64> {
    Set::new(
        |x: u64| exists|i: int| 0 <= i < n && #[trigger] ps[i].id == x && ps[i].child_dependant,
    )
}

/// The identities of the first `n` passes.
pub open spec fn ids_prefix(ps: Seq<PassDescriptor>, n: int) -> Set<u64> {
    Set::new(|x: u64| exists|i: int| 0 <= i < n && #[trigger] ps[i].id == x)
}


/// The dependants derived from the first `n` passes alone.
pub open spec fn dd_prefix(ps: Seq<PassDescriptor>, k: int, n: int) -> Set<u64> {
    Set::new(
        |x: u64|
            exists|i: int|
                0 <= i < n && i != k && #[trigger] ps[i].id == x && ps[i].dependencies@.contains(
                    ps[k].id,
                ),
    )
}

} // verus!
