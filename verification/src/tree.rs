//! The tree storage: an arena of node slots with parent, child list,
//! height and content per node. The well-formedness predicate ties parent
//! links, child lists and heights together; every structural operation
//! preserves it, which is what makes the structure a tree after every edit
//! sequence.
use vstd::prelude::*;

use crate::node::{content_wf, NodeType};

verus! {

/// One stored node.
pub struct Node {
    pub parent: Option<usize>,
    pub children: Vec<usize>,
    pub height: u16,
    pub content: NodeType,
}

/// The arena. Identities are slot indices; a removed node leaves an empty
/// slot behind, so identities are never reused.
pub struct Tree {
    pub nodes: Vec<Option<Node>>,
}

impl Tree {
    /// Whether `id` names a live node.
    pub open spec fn present(self, id: int) -> bool {
        0 <= id < self.nodes@.len() && self.nodes@[id] is Some
    }

    /// The stored node under a live identity.
    pub open spec fn node_of(self, id: int) -> Node {
        self.nodes@[id]->0
    }

    /// The parent link of a live node.
    pub open spec fn parent_of(self, id: int) -> Option<usize> {
        self.node_of(id).parent
    }

    /// The parent identity of a node known to have one.
    pub open spec fn parent_get(self, id: int) -> usize {
        self.parent_of(id)->0
    }

    /// The child list of a live node.
    pub open spec fn kids(self, id: int) -> Seq<usize> {
        self.node_of(id).children@
    }

    /// The stored height of a live node.
    pub open spec fn height_of(self, id: int) -> u16 {
        self.node_of(id).height
    }

    /// The content of a live node.
    pub open spec fn content_of(self, id: int) -> NodeType {
        self.node_of(id).content
    }

    /// The per-node clauses of well-formedness: the parent link is live,
    /// lists this node as a child and sits one level above it; a node
    /// without a parent sits at height zero; the child list is
    /// duplicate-free and every child points back here.
    pub open spec fn node_ok(self, id: int) -> bool {
        &&& (match self.parent_of(id) {
            Some(p) => {
                &&& self.present(p as int)
                &&& self.kids(p as int).contains(id as usize)
                &&& self.height_of(id) as int == self.height_of(p as int) as int + 1
            },
            None => self.height_of(id) == 0,
        })
        &&& self.kids(id).no_duplicates()
        &&& (forall|i: int|
            0 <= i < self.kids(id).len() ==> {
                &&& self.present(#[trigger] self.kids(id)[i] as int)
                &&& self.parent_of(self.kids(id)[i] as int) == Some(id as usize)
            })
        &&& content_wf(self.content_of(id))
    }

    /// Well-formedness of the whole arena: the root lives in slot zero, is
    /// an element and hangs from nothing, and every live node satisfies its
    /// per-node clauses.
    pub open spec fn wf(self) -> bool {
        &&& self.nodes@.len() >= 1
        &&& self.present(0)
        &&& self.parent_of(0) is None
        &&& self.content_of(0) is Element
        &&& forall|id: int| #[trigger] self.present(id) ==> self.node_ok(id)
    }

    /// Whether `a` lies on the parent chain of `n` (`n` itself included).
    pub open spec fn has_ancestor(self, n: int, a: int) -> bool
        decreases self.height_of(n) when self.wf() && self.present(n)
    {
        n == a || (self.present(n) && match self.parent_of(n) {
            Some(p) => self.has_ancestor(p as int, a),
            None => false,
        })
    }

    /// An ancestor is live and sits no lower than its descendant.
    pub proof fn lemma_ancestor_height(self, n: int, a: int)
        requires
            self.wf(),
            self.present(n),
            self.has_ancestor(n, a),
        ensures
            self.present(a),
            self.height_of(a) <= self.height_of(n),
        decreases self.height_of(n),
    {
        if n != a {
            let p = self.parent_get(n);
            self.lemma_ancestor_height(p as int, a);
        }
    }

    /// The ancestor relation composes.
    pub proof fn lemma_ancestor_trans(self, n: int, a: int, b: int)
        requires
            self.wf(),
            self.present(n),
            self.has_ancestor(n, a),
            self.has_ancestor(a, b),
        ensures
            self.has_ancestor(n, b),
        decreases self.height_of(n),
    {
        if n != a {
            let p = self.parent_get(n);
            self.lemma_ancestor_trans(p as int, a, b);
        }
    }

    /// No live node is a strict ancestor of itself: following one parent
    /// link can never lead back down to where it started.
    pub proof fn lemma_no_cycles(self, n: int)
        requires
            self.wf(),
            self.present(n),
            self.parent_of(n) is Some,
        ensures
            !self.has_ancestor(self.parent_get(n) as int, n),
    {
        let p = self.parent_get(n);
        if self.has_ancestor(p as int, n) {
            self.lemma_ancestor_height(p as int, n);
        }
    }

    /// A duplicate-free list of identities below `n` has at most `n`
    /// entries.
    pub proof fn lemma_bounded_nodup_len(s: Seq<usize>, n: int)
        requires
            s.no_duplicates(),
            forall|i: int| 0 <= i < s.len() ==> s[i] < n,
            0 <= n,
        ensures
            s.len() <= n,
    {
        let f = |u: usize| u as int;
        let si = s.map_values(f);
        s.lemma_no_duplicates_injective(f);
        si.unique_seq_to_set();
        assert(si.to_set().subset_of(vstd::set_lib::set_int_range(0, n))) by {
            assert forall|x: int| si.to_set().contains(x) implies vstd::set_lib::set_int_range(
                0,
                n,
            ).contains(x) by {
                let i = choose|i: int| 0 <= i < si.len() && si[i] == x;
                assert(s[i] < n);
            }
        }
        vstd::set_lib::lemma_int_range(0, n);
        vstd::set_lib::lemma_len_subset(si.to_set(), vstd::set_lib::set_int_range(0, n));
    }

    /// A fresh tree: the root alone, an element, at height zero.
    pub fn new(root_content: NodeType) -> (t: Tree)
        requires
            root_content is Element,
            content_wf(root_content),
        ensures
            t.wf(),
            t.nodes@.len() == 1,
            t.present(0),
            t.parent_of(0) is None,
            t.kids(0) == Seq::<usize>::empty(),
            t.height_of(0) == 0,
            t.content_of(0) == root_content,
    {
        let mut nodes: Vec<Option<Node>> = Vec::new();
        nodes.push(
            Some(Node { parent: None, children: Vec::new(), height: 0, content: root_content }),
        );
        let t = Tree { nodes };
        proof {
            assert forall|id: int| #[trigger] t.present(id) implies t.node_ok(id) by {
                assert(id == 0);
            }
        }
        t
    }

    /// Allocate a fresh node: detached, at height zero, with the given
    /// content. Its identity is the next unused slot.
    pub fn create_node(&mut self, content: NodeType) -> (id: usize)
        requires
            old(self).wf(),
            content_wf(content),
        ensures
            final(self).wf(),
            id == old(self).nodes@.len(),
            final(self).nodes@.len() == old(self).nodes@.len() + 1,
            final(self).present(id as int),
            final(self).parent_of(id as int) is None,
            final(self).kids(id as int) == Seq::<usize>::empty(),
            final(self).height_of(id as int) == 0,
            final(self).content_of(id as int) == content,
            forall|k: int| k != id ==> final(self).present(k) == old(self).present(k),
            forall|k: int|
                old(self).present(k) ==> final(self).node_of(k) == old(self).node_of(k),
    {
        let ghost pre = *self;
        let id = self.nodes.len();
        self.nodes.push(Some(Node { parent: None, children: Vec::new(), height: 0, content }));
        proof {
            assert forall|q: int| #[trigger] self.present(q) implies self.node_ok(q) by {
                if q != id {
                    assert(0 <= q < pre.nodes@.len() + 1);
                    assert(q < pre.nodes@.len());
                    assert(self.nodes@[q] == pre.nodes@[q]);
                    assert(pre.present(q));
                    assert(pre.node_ok(q));
                    assert forall|i: int| 0 <= i < self.kids(q).len() implies self.present(
                        #[trigger] self.kids(q)[i] as int,
                    ) && self.parent_of(self.kids(q)[i] as int) == Some(q as usize) by {
                        assert(pre.present(self.kids(q)[i] as int));
                    }
                }
            }
        }
        id
    }

    /// Whether `id` names a live node.
    pub fn contains(&self, id: usize) -> (r: bool)
        ensures
            r == self.present(id as int),
    {
        id < self.nodes.len() && self.nodes[id].is_some()
    }

    /// The parent of a live node; absence for dead identities and for
    /// detached nodes alike.
    pub fn parent_id(&self, id: usize) -> (r: Option<usize>)
        ensures
            r == (if self.present(id as int) {
                self.parent_of(id as int)
            } else {
                None::<usize>
            }),
    {
        if id < self.nodes.len() {
            match &self.nodes[id] {
                Some(node) => node.parent,
                None => None,
            }
        } else {
            None
        }
    }

    /// The current height of a live node.
    pub fn height(&self, id: usize) -> (r: Option<u16>)
        ensures
            r == (if self.present(id as int) {
                Some(self.height_of(id as int))
            } else {
                None::<u16>
            }),
    {
        if id < self.nodes.len() {
            match &self.nodes[id] {
                Some(node) => Some(node.height),
                None => None,
            }
        } else {
            None
        }
    }

    /// A copy of the child list of a live node.
    pub fn children_ids(&self, id: usize) -> (r: Option<Vec<usize>>)
        ensures
            match r {
                Some(v) => self.present(id as int) && v@ == self.kids(id as int),
                None => !self.present(id as int),
            },
    {
        if id < self.nodes.len() {
            match &self.nodes[id] {
                Some(node) => Some(copy_usizes(&node.children)),
                None => None,
            }
        } else {
            None
        }
    }

    /// The content of a live node.
    pub fn content(&self, id: usize) -> (r: Option<&NodeType>)
        ensures
            match r {
                Some(c) => self.present(id as int) && *c == self.content_of(id as int),
                None => !self.present(id as int),
            },
    {
        if id < self.nodes.len() {
            match &self.nodes[id] {
                Some(node) => Some(&node.content),
                None => None,
            }
        } else {
            None
        }
    }

    /// How many nodes are live.
    pub fn size(&self) -> (r: usize)
        ensures
            r == count_present(self.nodes@, self.nodes@.len() as int),
    {
        let mut r: usize = 0;
        let mut i: usize = 0;
        while i < self.nodes.len()
            invariant
                i <= self.nodes@.len(),
                r == count_present(self.nodes@, i as int),
                r <= i,
            decreases self.nodes@.len() - i,
        {
            if self.nodes[i].is_some() {
                r += 1;
            }
            i += 1;
        }
        r
    }

    /// Whether `a` lies on the parent chain of `n`.
    pub fn is_ancestor(&self, n: usize, a: usize) -> (r: bool)
        requires
            self.wf(),
            self.present(n as int),
        ensures
            r == self.has_ancestor(n as int, a as int),
    {
        let mut cur = n;
        loop
            invariant
                self.wf(),
                self.present(cur as int),
                self.has_ancestor(n as int, a as int) == self.has_ancestor(cur as int, a as int),
            decreases self.height_of(cur as int),
        {
            if cur == a {
                return true;
            }
            let p_opt = match &self.nodes[cur] {
                Some(node) => node.parent,
                None => None,
            };
            match p_opt {
                Some(p) => {
                    cur = p;
                },
                None => {
                    return false;
                },
            }
        }
    }
    /// The position of a child in its parent's child list.
    pub open spec fn kid_index(self, p: int, c: usize) -> int {
        choose|i: int| 0 <= i < self.kids(p).len() && self.kids(p)[i] == c
    }

    /// Two live nodes hanging under one parent.
    pub open spec fn same_parent(self, a: usize, b: usize) -> bool {
        &&& self.present(a as int)
        &&& self.present(b as int)
        &&& self.parent_of(a as int) is Some
        &&& self.parent_of(a as int) == self.parent_of(b as int)
    }

    /// Sibling order: `a` sits earlier than `b` in their parent's child
    /// list.
    pub open spec fn sib_before(self, a: usize, b: usize) -> bool {
        self.kid_index(self.parent_get(a as int) as int, a) < self.kid_index(
            self.parent_get(a as int) as int,
            b,
        )
    }

    /// In a duplicate-free child list, the position of each child is the
    /// index it stands at.
    pub proof fn lemma_kid_index(self, p: int, w: int)
        requires
            self.wf(),
            self.present(p),
            0 <= w < self.kids(p).len(),
        ensures
            self.kid_index(p, self.kids(p)[w]) == w,
    {
        let c = self.kids(p)[w];
        let i = choose|i: int| 0 <= i < self.kids(p).len() && self.kids(p)[i] == c;
        assert(self.node_ok(p));
        if i < w {
            assert(self.kids(p)[i] != self.kids(p)[w]);
        } else if w < i {
            assert(self.kids(p)[w] != self.kids(p)[i]);
        }
    }

    /// Everything a set closed under the child step holds: if a set with
    /// the subtree root also holds every live child of its members, it
    /// holds the whole subtree.
    pub proof fn lemma_subtree_closure(self, root: int, done: Set<usize>, m: int)
        requires
            self.wf(),
            self.present(root),
            done.contains(root as usize),
            forall|k: int|
                self.present(k) && self.parent_of(k) is Some && done.contains(
                    #[trigger] self.parent_get(k),
                ) ==> done.contains(k as usize),
            self.present(m),
            self.has_ancestor(m, root),
        ensures
            done.contains(m as usize),
        decreases self.height_of(m),
    {
        if m != root {
            let p = self.parent_get(m);
            self.lemma_subtree_closure(root, done, p as int);
            assert(self.parent_get(m) == p);
        }
    }

    /// Collect the identities of a whole subtree, the root first and every
    /// node after its parent, siblings in child-list order, each exactly
    /// once.
    #[verifier::rlimit(100)]
    pub fn subtree_ids(&self, root: usize) -> (r: Vec<usize>)
        requires
            self.wf(),
            self.present(root as int),
        ensures
            r@.len() >= 1,
            r@[0] == root,
            r@.no_duplicates(),
            forall|i: int|
                0 <= i < r@.len() ==> self.present(#[trigger] r@[i] as int) && self.has_ancestor(
                    r@[i] as int,
                    root as int,
                ),
            forall|n: int|
                self.present(n) && self.has_ancestor(n, root as int) ==> r@.contains(n as usize),
            forall|i: int|
                1 <= i < r@.len() ==> self.parent_of(#[trigger] r@[i] as int) is Some
                    && r@.subrange(0, i).contains(self.parent_get(r@[i] as int)),
            forall|i: int, j: int|
                0 <= i < j < r@.len() && #[trigger] self.same_parent(r@[i], r@[j])
                    ==> self.sib_before(r@[i], r@[j]),
    {
        let mut result: Vec<usize> = Vec::new();
        let mut stack: Vec<usize> = Vec::new();
        stack.push(root);
        while stack.len() > 0
            invariant
                self.wf(),
                self.present(root as int),
                result@.no_duplicates(),
                stack@.no_duplicates(),
                result@.len() <= self.nodes@.len(),
                forall|i: int|
                    0 <= i < result@.len() ==> self.present(#[trigger] result@[i] as int)
                        && self.has_ancestor(result@[i] as int, root as int),
                forall|i: int|
                    0 <= i < stack@.len() ==> self.present(#[trigger] stack@[i] as int)
                        && self.has_ancestor(stack@[i] as int, root as int),
                forall|x: usize| !(result@.contains(x) && stack@.contains(x)),
                result@.len() == 0 ==> stack@ =~= seq![root],
                result@.len() > 0 ==> result@[0] == root && !stack@.contains(root),
                forall|i: int|
                    1 <= i < result@.len() ==> self.parent_of(#[trigger] result@[i] as int)
                        is Some && result@.subrange(0, i).contains(
                        self.parent_get(result@[i] as int),
                    ),
                forall|i: int|
                    0 <= i < stack@.len() ==> (stack@[i] == root || (self.parent_of(
                        #[trigger] stack@[i] as int,
                    ) is Some && result@.contains(self.parent_get(stack@[i] as int)))),
                forall|m: int|
                    #[trigger] self.present(m) && self.parent_of(m) is Some && result@.contains(
                        self.parent_get(m),
                    ) ==> result@.contains(m as usize) || stack@.contains(m as usize),
                forall|i: int, j: int|
                    0 <= i < j < result@.len() && #[trigger] self.same_parent(
                        result@[i],
                        result@[j],
                    ) ==> self.sib_before(result@[i], result@[j]),
                forall|i: int, j: int|
                    0 <= i < result@.len() && 0 <= j < stack@.len()
                        && #[trigger] self.same_parent(result@[i], stack@[j])
                        ==> self.sib_before(result@[i], stack@[j]),
                forall|i: int, j: int|
                    0 <= i < j < stack@.len() && #[trigger] self.same_parent(
                        stack@[i],
                        stack@[j],
                    ) ==> self.sib_before(stack@[j], stack@[i]),
            decreases self.nodes@.len() - result@.len(),
        {
            let ghost res0 = result@;
            let ghost stk0 = stack@;
            let n_opt = stack.pop();
            let n = match n_opt {
                Some(n) => n,
                None => 0,
            };
            proof {
                assert(n == stk0.last());
                assert(stk0.contains(n));
                assert(!res0.contains(n));
            }
            result.push(n);
            let ghost res1 = result@;
            proof {
                if res0.len() == 0 {
                    assert(n == root);
                } else {
                    assert(n != root);
                    assert(self.parent_of(n as int) is Some && res0.contains(
                        self.parent_get(n as int),
                    ));
                    assert(res1.subrange(0, res0.len() as int) =~= res0);
                }
                assert(result@.len() <= self.nodes@.len()) by {
                    Tree::lemma_bounded_nodup_len(result@, self.nodes@.len() as int);
                }
            }
            let kids_list = match &self.nodes[n] {
                Some(node) => copy_usizes_rev(&node.children),
                None => Vec::new(),
            };
            let ghost kl: Seq<usize> = kids_list@;
            let ghost stk1 = stack@;
            proof {
                assert(kl.len() == self.kids(n as int).len());
                assert(forall|i: int|
                    0 <= i < kl.len() ==> kl[i] == self.kids(n as int)[kl.len() - 1 - i]);
                assert(kl.no_duplicates()) by {
                    assert forall|i: int, j: int| 0 <= i < j < kl.len() implies kl[i] != kl[j] by {
                        assert(kl[i] == self.kids(n as int)[kl.len() - 1 - i]);
                        assert(kl[j] == self.kids(n as int)[kl.len() - 1 - j]);
                    }
                }
                assert(stk1 == stk0.drop_last());
                assert forall|x: usize| stk1.contains(x) implies stk0.contains(x) by {
                    let i = choose|i: int| 0 <= i < stk1.len() && stk1[i] == x;
                    assert(stk0[i] == x);
                }
                assert(res1[res1.len() - 1] == n);
                assert(result@.contains(n));
                if res0.len() == 0 {
                    assert(stk0 =~= seq![root]);
                    assert(n == root);
                    assert(stk1 =~= Seq::<usize>::empty());
                }
                assert(result@[0] == root);
                assert(stack@ =~= stk1 + kl.subrange(0, 0));
                assert forall|i: int|
                    0 <= i < stk1.len() implies (stk1[i] == root || (self.parent_of(
                    stk1[i] as int,
                ) is Some && res0.contains(self.parent_get(stk1[i] as int)))) by {
                    assert(stk0[i] == stk1[i]);
                }
                assert forall|m: int|
                    #[trigger] self.present(m) && self.parent_of(m) is Some && result@.contains(
                        self.parent_get(m),
                    ) implies result@.contains(m as usize) || stack@.contains(m as usize)
                    || exists|j: int| 0 <= j < kl.len() && kl[j] == m as usize by {
                    let pg = self.parent_get(m);
                    if pg == n {
                        assert(self.kids(n as int).contains(m as usize));
                        let j = choose|j: int|
                            0 <= j < self.kids(n as int).len() && self.kids(n as int)[j]
                                == m as usize;
                        assert(kl[kl.len() - 1 - j] == m as usize);
                    } else {
                        let i = choose|i: int| 0 <= i < res1.len() && res1[i] == pg;
                        assert(i < res0.len());
                        assert(res0[i] == pg);
                        assert(res0.contains(pg));
                        assert(res0.contains(m as usize) || stk0.contains(m as usize));
                        if res0.contains(m as usize) {
                            let q = choose|q: int| 0 <= q < res0.len() && res0[q] == m as usize;
                            assert(res1[q] == m as usize);
                        } else {
                            let q = choose|q: int| 0 <= q < stk0.len() && stk0[q] == m as usize;
                            if q < stk1.len() {
                                assert(stk1[q] == m as usize);
                                assert(stack@.contains(m as usize));
                            } else {
                                assert(m as usize == n);
                            }
                        }
                    }
                }
                // Sibling order among what is collected and what waits.
                assert forall|i: int, j: int|
                    0 <= i < j < res1.len() && #[trigger] self.same_parent(
                        res1[i],
                        res1[j],
                    ) implies self.sib_before(res1[i], res1[j]) by {
                    if j == res1.len() - 1 {
                        assert(res0[i] == res1[i]);
                        assert(stk0[stk0.len() - 1] == n);
                        assert(self.same_parent(res0[i], stk0[stk0.len() - 1]));
                    } else {
                        assert(res0[i] == res1[i] && res0[j] == res1[j]);
                        assert(self.same_parent(res0[i], res0[j]));
                    }
                }
                assert forall|i: int, j: int|
                    0 <= i < res1.len() && 0 <= j < stk1.len() && #[trigger] self.same_parent(
                        res1[i],
                        stk1[j],
                    ) implies self.sib_before(res1[i], stk1[j]) by {
                    assert(stk0[j] == stk1[j]);
                    if i == res1.len() - 1 {
                        assert(res1[i] == n);
                        assert(stk0[stk0.len() - 1] == n);
                        assert(self.same_parent(stk0[j], stk0[stk0.len() - 1]));
                    } else {
                        assert(res0[i] == res1[i]);
                        assert(self.same_parent(res0[i], stk0[j]));
                    }
                }
                assert forall|i: int, j: int|
                    0 <= i < j < stk1.len() && #[trigger] self.same_parent(
                        stk1[i],
                        stk1[j],
                    ) implies self.sib_before(stk1[j], stk1[i]) by {
                    assert(stk0[i] == stk1[i] && stk0[j] == stk1[j]);
                    assert(self.same_parent(stk0[i], stk0[j]));
                }
            }
            let mut k: usize = 0;
            while k < kids_list.len()
                invariant
                    self.wf(),
                    self.present(root as int),
                    self.present(n as int),
                    k <= kl.len(),
                    kids_list@ == kl,
                    kl.len() == self.kids(n as int).len(),
                    forall|i: int|
                        0 <= i < kl.len() ==> kl[i] == self.kids(n as int)[kl.len() - 1 - i],
                    kl.no_duplicates(),
                    result@ == res1,
                    res1 == res0.push(n),
                    res1.len() >= 1,
                    !res0.contains(n),
                    forall|i: int|
                        0 <= i < stk1.len() ==> (stk1[i] == root || (self.parent_of(
                            #[trigger] stk1[i] as int,
                        ) is Some && res0.contains(self.parent_get(stk1[i] as int)))),
                    result@.no_duplicates(),
                    result@.len() <= self.nodes@.len(),
                    stack@ =~= stk1 + kl.subrange(0, k as int),
                    stack@.no_duplicates(),
                    result@.contains(n),
                    forall|i: int|
                        0 <= i < result@.len() ==> self.present(#[trigger] result@[i] as int)
                            && self.has_ancestor(result@[i] as int, root as int),
                    forall|i: int|
                        0 <= i < stack@.len() ==> self.present(#[trigger] stack@[i] as int)
                            && self.has_ancestor(stack@[i] as int, root as int),
                    forall|x: usize| !(result@.contains(x) && stack@.contains(x)),
                    result@[0] == root && !stack@.contains(root),
                    forall|i: int|
                        1 <= i < result@.len() ==> self.parent_of(#[trigger] result@[i] as int)
                            is Some && result@.subrange(0, i).contains(
                            self.parent_get(result@[i] as int),
                        ),
                    forall|i: int|
                        0 <= i < stack@.len() ==> (stack@[i] == root || (self.parent_of(
                            #[trigger] stack@[i] as int,
                        ) is Some && result@.contains(self.parent_get(stack@[i] as int)))),
                    forall|m: int|
                        #[trigger] self.present(m) && self.parent_of(m) is Some
                            && result@.contains(self.parent_get(m)) ==> result@.contains(m as usize)
                            || stack@.contains(m as usize) || exists|j: int|
                            k <= j < kl.len() && kl[j] == m as usize,
                    forall|i: int, j: int|
                        0 <= i < j < result@.len() && #[trigger] self.same_parent(
                            result@[i],
                            result@[j],
                        ) ==> self.sib_before(result@[i], result@[j]),
                    forall|i: int, j: int|
                        0 <= i < result@.len() && 0 <= j < stack@.len()
                            && #[trigger] self.same_parent(result@[i], stack@[j])
                            ==> self.sib_before(result@[i], stack@[j]),
                    forall|i: int, j: int|
                        0 <= i < j < stack@.len() && #[trigger] self.same_parent(
                            stack@[i],
                            stack@[j],
                        ) ==> self.sib_before(stack@[j], stack@[i]),
                decreases kl.len() - k,
            {
                let c = kids_list[k];
                let ghost cw: int = kl.len() - 1 - k;
                proof {
                    assert(self.kids(n as int)[cw] == c);
                    assert(self.present(c as int) && self.parent_of(c as int) == Some(n));
                    assert(self.has_ancestor(c as int, root as int)) by {
                        assert(self.has_ancestor(n as int, root as int));
                    }
                    // The child cannot be the subtree root: the root sits no
                    // lower than any subtree member, yet a child sits one
                    // level below its parent.
                    assert(c != root) by {
                        if c == root {
                            self.lemma_ancestor_height(n as int, root as int);
                        }
                    }
                    // The child is not collected yet.
                    assert(!result@.contains(c)) by {
                        if result@.contains(c) {
                            let i = choose|i: int| 0 <= i < result@.len() && result@[i] == c;
                            assert(i != 0);
                            if i == result@.len() - 1 {
                                assert(c == n);
                                assert(self.height_of(c as int) as int == self.height_of(
                                    n as int,
                                ) as int + 1);
                            } else {
                                assert(result@.subrange(0, i).contains(
                                    self.parent_get(c as int),
                                ));
                                let q = choose|q: int| 0 <= q < i && result@[q] == n;
                                assert(res0[q] == n);
                                assert(res0.contains(n));
                            }
                        }
                    }
                    // Nor waiting on the stack.
                    assert(!stack@.contains(c)) by {
                        if stack@.contains(c) {
                            let i = choose|i: int| 0 <= i < stack@.len() && stack@[i] == c;
                            if i < stk1.len() {
                                assert(stk1[i] == c);
                                assert(c == root || res0.contains(self.parent_get(c as int)));
                                assert(res0.contains(n));
                            } else {
                                assert(kl.subrange(0, k as int)[i - stk1.len()] == c);
                                assert(kl[i - stk1.len()] == c);
                                assert(kl[k as int] == c);
                                assert(kl.no_duplicates());
                            }
                        }
                    }
                }
                let ghost stk_pre = stack@;
                stack.push(c);
                proof {
                    assert(stack@ == stk_pre.push(c));
                    assert(stack@ =~= stk1 + kl.subrange(0, k + 1));
                    assert forall|m: int|
                        #[trigger] self.present(m) && self.parent_of(m) is Some
                            && result@.contains(self.parent_get(m)) implies result@.contains(
                        m as usize,
                    ) || stack@.contains(m as usize) || exists|j: int|
                        k + 1 <= j < kl.len() && kl[j] == m as usize by {
                        if !result@.contains(m as usize) && !stack@.contains(m as usize) {
                            assert(!stk_pre.contains(m as usize)) by {
                                if stk_pre.contains(m as usize) {
                                    let q = choose|q: int|
                                        0 <= q < stk_pre.len() && stk_pre[q] == m as usize;
                                    assert(stack@[q] == m as usize);
                                }
                            }
                            let j = choose|j: int| k <= j < kl.len() && kl[j] == m as usize;
                            assert(stack@[stack@.len() - 1] == c);
                            assert(m as usize != c);
                            assert(j != k);
                        }
                    }
                    dfs_sib_step(
                        *self,
                        root,
                        n,
                        res0,
                        result@,
                        stk1,
                        stk_pre,
                        stack@,
                        kl,
                        k as int,
                        c,
                    );
                }
                k += 1;
            }
            proof {
                assert forall|m: int|
                    #[trigger] self.present(m) && self.parent_of(m) is Some && result@.contains(
                        self.parent_get(m),
                    ) implies result@.contains(m as usize) || stack@.contains(m as usize) by {}
            }
        }
        proof {
            let done = Set::new(|x: usize| result@.contains(x));
            assert forall|m: int|
                self.present(m) && self.has_ancestor(m, root as int) implies result@.contains(
                m as usize,
            ) by {
                assert(done.contains(root)) by {
                    assert(result@.len() > 0);
                    assert(result@[0] == root);
                }
                assert forall|q: int|
                    self.present(q) && self.parent_of(q) is Some && done.contains(
                        #[trigger] self.parent_get(q),
                    ) implies done.contains(q as usize) by {}
                self.lemma_subtree_closure(root as int, done, m);
            }
        }
        result
    }
    /// Whether an attachment of `child` under `parent` is admissible: both
    /// live, the root stays where it is, no cycle would form, every
    /// re-homed height still fits, and the anchor sibling (when one is
    /// given) already hangs under `parent`.
    pub open spec fn attach_ok(
        self,
        parent: usize,
        child: usize,
        anchor: Option<(usize, bool)>,
    ) -> bool {
        &&& self.present(parent as int)
        &&& self.present(child as int)
        &&& child != 0
        &&& !self.has_ancestor(parent as int, child as int)
        &&& (forall|n: int|
            self.present(n) && #[trigger] self.has_ancestor(n, child as int)
                ==> self.height_of(parent as int) + 1 + self.height_of(n) - self.height_of(
                child as int,
            ) <= u16::MAX)
        &&& (match anchor {
            Some((sib, _)) => self.present(sib as int) && sib != child && self.parent_of(
                sib as int,
            ) == Some(parent),
            None => true,
        })
    }

    /// What a successful attachment leaves behind.
    pub open spec fn attached_shape(
        pre: Tree,
        post: Tree,
        parent: usize,
        child: usize,
        anchor: Option<(usize, bool)>,
    ) -> bool {
        &&& post.nodes@.len() == pre.nodes@.len()
        &&& (forall|k: int| post.present(k) == pre.present(k))
        &&& (forall|k: int| pre.present(k) ==> post.content_of(k) == pre.content_of(k))
        &&& post.parent_of(child as int) == Some(parent)
        &&& (forall|k: int|
            pre.present(k) && k != child ==> post.parent_of(k) == pre.parent_of(k))
        &&& post.kids(parent as int).contains(child)
        &&& (forall|k: int, x: usize|
            pre.present(k) && x != child ==> (post.kids(k).contains(x) == pre.kids(
                k,
            ).contains(x)))
        &&& (forall|k: int|
            pre.present(k) && k != parent && !(pre.parent_of(child as int) == Some(k as usize))
                ==> post.kids(k) == pre.kids(k))
        &&& (anchor is None ==> post.kids(parent as int).last() == child)
        &&& (match anchor {
            Some((sib, after)) => exists|i: int|
                0 <= i < post.kids(parent as int).len() && #[trigger] post.kids(parent as int)[i]
                    == child && (if after {
                    i >= 1 && post.kids(parent as int)[i - 1] == sib
                } else {
                    i + 1 < post.kids(parent as int).len() && post.kids(parent as int)[i + 1]
                        == sib
                }),
            None => true,
        })
        &&& (forall|n: int|
            pre.present(n) && #[trigger] pre.has_ancestor(n, child as int) ==> post.height_of(n)
                as int == pre.height_of(parent as int) + 1 + pre.height_of(n) - pre.height_of(
                child as int,
            ))
        &&& (forall|n: int|
            pre.present(n) && !pre.has_ancestor(n, child as int) ==> post.height_of(n)
                == pre.height_of(n))
    }

    /// Attach `child` under `parent`: at the end of the child list, or
    /// right before or after an anchor sibling. Re-homes the child's whole
    /// subtree, recomputing its heights. An inadmissible request leaves the
    /// tree untouched.
    #[verifier::rlimit(100)]
    pub fn attach(&mut self, parent: usize, child: usize, anchor: Option<(usize, bool)>) -> (ok:
        bool)
        requires
            old(self).wf(),
        ensures
            final(self).wf(),
            ok == old(self).attach_ok(parent, child, anchor),
            ok ==> Tree::attached_shape(*old(self), *final(self), parent, child, anchor),
            !ok ==> *final(self) == *old(self),
    {
        let ghost pre = *self;
        // Guards, all on the untouched tree.
        if !(parent < self.nodes.len() && self.nodes[parent].is_some()) {
            return false;
        }
        if !(child < self.nodes.len() && self.nodes[child].is_some()) {
            return false;
        }
        if child == 0 {
            return false;
        }
        if self.is_ancestor(parent, child) {
            return false;
        }
        match anchor {
            Some((sib, _)) => {
                if !(sib < self.nodes.len() && self.nodes[sib].is_some()) {
                    return false;
                }
                if sib == child {
                    return false;
                }
                let sp = match &self.nodes[sib] {
                    Some(node) => node.parent,
                    None => None,
                };
                if sp != Some(parent) {
                    return false;
                }
            },
            None => {},
        }
        let list = self.subtree_ids(child);
        let child_h = match &self.nodes[child] {
            Some(node) => node.height,
            None => 0,
        };
        let parent_h = match &self.nodes[parent] {
            Some(node) => node.height,
            None => 0,
        };
        // The deepest height in the subtree decides whether everything
        // still fits below the new parent.
        let mut maxh: u16 = child_h;
        let mut q: usize = 1;
        proof {
            assert(list@[0] == child);
        }
        let ghost mut ghost_wit: int = 0;
        while q < list.len()
            invariant
                *self == pre,
                pre.wf(),
                pre.present(child as int),
                list@.len() >= 1,
                1 <= q <= list@.len(),
                forall|i: int|
                    0 <= i < list@.len() ==> pre.present(#[trigger] list@[i] as int)
                        && pre.has_ancestor(list@[i] as int, child as int),
                forall|i: int| 0 <= i < q ==> pre.height_of(#[trigger] list@[i] as int) <= maxh,
                0 <= ghost_wit < q,
                pre.height_of(list@[ghost_wit] as int) == maxh,
            decreases list@.len() - q,
        {
            let h = match &self.nodes[list[q]] {
                Some(node) => node.height,
                None => 0,
            };
            if h > maxh {
                maxh = h;
                proof {
                    ghost_wit = q as int;
                }
            }
            q += 1;
        }
        if !(parent_h as u32 + 1 + maxh as u32 - child_h as u32 <= u16::MAX as u32) {
            proof {
                let w = list@[ghost_wit] as int;
                assert(pre.present(w) && pre.has_ancestor(w, child as int));
                assert(pre.height_of(parent as int) + 1 + pre.height_of(w) - pre.height_of(
                    child as int,
                ) > u16::MAX);
            }
            return false;
        }
        proof {
            assert(pre.attach_ok(parent, child, anchor)) by {
                assert forall|n: int|
                    pre.present(n) && #[trigger] pre.has_ancestor(n, child as int) implies pre
                    .height_of(parent as int) + 1 + pre.height_of(n) - pre.height_of(child as int)
                    <= u16::MAX by {
                    assert(list@.contains(n as usize));
                    let i = choose|i: int| 0 <= i < list@.len() && list@[i] == n as usize;
                    assert(pre.height_of(n) <= maxh);
                }
            }
        }
        // From here on the request is admissible; restructure.
        let old_parent = match &self.nodes[child] {
            Some(node) => node.parent,
            None => None,
        };
        let ghost mut gidx: int = 0;
        match old_parent {
            Some(p0) => {
                proof {
                    assert(pre.kids(p0 as int).contains(child));
                }
                let found = match &self.nodes[p0] {
                    Some(node) => find_usize(&node.children, child),
                    None => None,
                };
                let idx = match found {
                    Some(i) => i,
                    None => 0,
                };
                proof {
                    assert(found is Some);
                    gidx = idx as int;
                }
                match &mut self.nodes[p0] {
                    Some(node) => {
                        node.children.remove(idx);
                    },
                    None => {},
                }
                proof {
                    assert(self.node_of(p0 as int).children@ == pre.kids(p0 as int).remove(
                        gidx,
                    ));
                    assert(self.node_of(p0 as int).parent == pre.node_of(p0 as int).parent);
                    assert(self.node_of(p0 as int).height == pre.node_of(p0 as int).height);
                    assert(self.node_of(p0 as int).content == pre.node_of(p0 as int).content);
                    assert(forall|k: int|
                        0 <= k < self.nodes@.len() && k != p0 as int ==> self.nodes@[k]
                            == pre.nodes@[k]);
                }
            },
            None => {},
        }
        let ghost mid1 = *self;
        match &mut self.nodes[child] {
            Some(node) => {
                node.parent = Some(parent);
            },
            None => {},
        }
        let ghost mid2 = *self;
        proof {
            assert(self.node_of(child as int).parent == Some(parent));
            assert(self.node_of(child as int).children == mid1.node_of(child as int).children);
            assert(self.node_of(child as int).height == mid1.node_of(child as int).height);
            assert(self.node_of(child as int).content == mid1.node_of(child as int).content);
            assert(forall|k: int|
                0 <= k < self.nodes@.len() && k != child as int ==> self.nodes@[k]
                    == mid1.nodes@[k]);
            // The child never hangs under itself, so its own list survived
            // the detachment untouched.
            if old_parent is Some {
                assert(old_parent->0 != child) by {
                    if old_parent->0 == child {
                        assert(pre.height_of(child as int) as int == pre.height_of(
                            child as int,
                        ) as int + 1);
                    }
                }
            }
        }
        let pos = match anchor {
            Some((sib, after)) => {
                proof {
                    assert(pre.kids(parent as int).contains(sib));
                    assert(self.node_of(parent as int).children@ == kids_after_detach(
                        pre,
                        child,
                        gidx,
                        parent as int,
                    ));
                    if old_parent is Some && old_parent->0 == parent {
                        lemma_remove_membership(pre.kids(parent as int), gidx, sib);
                    }
                    assert(self.node_of(parent as int).children@.contains(sib));
                }
                let (found, clen) = match &self.nodes[parent] {
                    Some(node) => (find_usize(&node.children, sib), node.children.len()),
                    None => (None, 0),
                };
                let i = match found {
                    Some(i) => i,
                    None => 0,
                };
                proof {
                    assert(found is Some);
                    assert(i < clen);
                }
                if after {
                    i + 1
                } else {
                    i
                }
            },
            None => match &self.nodes[parent] {
                Some(node) => node.children.len(),
                None => 0,
            },
        };
        match &mut self.nodes[parent] {
            Some(node) => {
                node.children.insert(pos, child);
            },
            None => {},
        }
        let ghost mid3 = *self;
        proof {
            assert(mid3.node_of(parent as int).children@ == kids_after_detach(
                pre,
                child,
                gidx,
                parent as int,
            ).insert(pos as int, child));
            assert(forall|k: int|
                0 <= k < mid3.nodes@.len() && k != parent as int ==> mid3.nodes@[k]
                    == mid2.nodes@[k]);
            assert(forall|k: int| mid3.present(k) == pre.present(k));
            assert forall|k: int| pre.present(k) && k != parent implies mid3.kids(k)
                == kids_after_detach(pre, child, gidx, k) by {}
            assert forall|i: int|
                0 <= i < list@.len() implies child_h <= mid3.height_of(
                #[trigger] list@[i] as int,
            ) <= maxh by {
                pre.lemma_ancestor_height(list@[i] as int, child as int);
                assert(pre.height_of(list@[i] as int) <= maxh);
            }
        }
        // Shift the heights of the whole re-homed subtree by one constant.
        let mut t: usize = 0;
        while t < list.len()
            invariant
                self.nodes@.len() == mid3.nodes@.len(),
                t <= list@.len(),
                forall|k: int| self.present(k) == mid3.present(k),
                forall|i: int|
                    0 <= i < list@.len() ==> self.present(#[trigger] list@[i] as int),
                list@.no_duplicates(),
                forall|k: int|
                    self.present(k) && !list@.contains(k as usize) ==> self.node_of(k)
                        == mid3.node_of(k),
                forall|i: int|
                    t <= i < list@.len() ==> self.node_of(#[trigger] list@[i] as int)
                        == mid3.node_of(list@[i] as int),
                forall|i: int|
                    0 <= i < t ==> {
                        let m = mid3.node_of(#[trigger] list@[i] as int);
                        self.node_of(list@[i] as int) == (Node {
                            height: (parent_h + 1 + mid3.height_of(list@[i] as int) - child_h)
                                as u16,
                            ..m
                        })
                    },
                parent_h as int + 1 + maxh as int - child_h as int <= u16::MAX,
                forall|i: int|
                    0 <= i < list@.len() ==> child_h <= mid3.height_of(#[trigger] list@[i] as int)
                        <= maxh,
            decreases list@.len() - t,
        {
            let id = list[t];
            let h = match &self.nodes[id] {
                Some(node) => node.height,
                None => 0,
            };
            proof {
                assert(self.node_of(id as int) == mid3.node_of(id as int));
            }
            let new_h_wide: u32 = parent_h as u32 + 1 + h as u32 - child_h as u32;
            let new_h: u16 = new_h_wide as u16;
            match &mut self.nodes[id] {
                Some(node) => {
                    node.height = new_h;
                },
                None => {},
            }
            proof {
                assert forall|i: int|
                    t + 1 <= i < list@.len() implies self.node_of(#[trigger] list@[i] as int)
                    == mid3.node_of(list@[i] as int) by {
                    assert(list@[i] != id);
                }
            }
            t += 1;
        }
        proof {
            assert forall|i: int|
                0 <= i < list@.len() implies self.height_of(#[trigger] list@[i] as int) as int
                == parent_h + 1 + mid3.height_of(list@[i] as int) - child_h by {
                assert(child_h <= mid3.height_of(list@[i] as int) <= maxh);
            }
            attach_final_proof(
                pre,
                mid3,
                *self,
                parent,
                child,
                anchor,
                list@,
                parent_h,
                child_h,
                gidx,
                pos as int,
            );
        }
        true
    }
    /// Replacing one node's content, keeping it internally consistent,
    /// keeps the whole tree well formed.
    pub proof fn lemma_content_swap_wf(pre: Tree, post: Tree, id: int)
        requires
            pre.wf(),
            pre.present(id),
            post.nodes@.len() == pre.nodes@.len(),
            forall|k: int|
                0 <= k < post.nodes@.len() && k != id ==> post.nodes@[k] == pre.nodes@[k],
            post.present(id),
            post.node_of(id).parent == pre.node_of(id).parent,
            post.node_of(id).children == pre.node_of(id).children,
            post.node_of(id).height == pre.node_of(id).height,
            content_wf(post.content_of(id)),
            id == 0 ==> post.content_of(0) is Element,
        ensures
            post.wf(),
            forall|k: int| post.present(k) == pre.present(k),
    {
        assert forall|k: int| post.present(k) == pre.present(k) by {}
        assert forall|q: int| #[trigger] post.present(q) implies post.node_ok(q) by {
            assert(pre.present(q) && pre.node_ok(q));
            assert(post.parent_of(q) == pre.parent_of(q));
            assert(post.kids(q) == pre.kids(q));
            assert forall|i: int| 0 <= i < post.kids(q).len() implies post.present(
                #[trigger] post.kids(q)[i] as int,
            ) && post.parent_of(post.kids(q)[i] as int) == Some(q as usize) by {
                assert(pre.present(pre.kids(q)[i] as int));
            }
        }
    }

    /// Two trees agree on the ancestor relation wherever the second one's
    /// live nodes carry the same parent links and stay closed under them.
    pub proof fn lemma_ancestor_restrict(t1: Tree, t2: Tree, n: int, a: int)
        requires
            t1.wf(),
            t2.wf(),
            t2.present(n),
            forall|k: int|
                #[trigger] t2.present(k) ==> t1.present(k) && t2.parent_of(k) == t1.parent_of(k),
            forall|k: int|
                #[trigger] t2.present(k) && t1.parent_of(k) is Some ==> t2.present(
                    t1.parent_get(k) as int,
                ),
        ensures
            t2.has_ancestor(n, a) == t1.has_ancestor(n, a),
        decreases t2.height_of(n),
    {
        if n != a {
            match t2.parent_of(n) {
                Some(p) => {
                    Tree::lemma_ancestor_restrict(t1, t2, p as int, a);
                },
                None => {},
            }
        }
    }

    /// Drop a whole subtree: every node of it leaves the tree, and the
    /// subtree root leaves its parent's child list. The root of the whole
    /// tree cannot be dropped; a dead identity is a no-op.
    #[verifier::rlimit(60)]
    pub fn remove_subtree(&mut self, id: usize) -> (ok: bool)
        requires
            old(self).wf(),
        ensures
            final(self).wf(),
            ok == (old(self).present(id as int) && id != 0),
            !ok ==> *final(self) == *old(self),
            ok ==> {
                &&& final(self).nodes@.len() == old(self).nodes@.len()
                &&& (forall|k: int|
                    final(self).present(k) == (old(self).present(k) && !old(self).has_ancestor(
                        k,
                        id as int,
                    )))
                &&& (forall|k: int|
                    final(self).present(k) ==> final(self).parent_of(k) == old(self).parent_of(k)
                        && final(self).height_of(k) == old(self).height_of(k)
                        && final(self).content_of(k) == old(self).content_of(k))
                &&& (forall|k: int|
                    final(self).present(k) && !(old(self).parent_of(id as int) == Some(
                        k as usize,
                    )) ==> final(self).kids(k) == old(self).kids(k))
                &&& (match old(self).parent_of(id as int) {
                    Some(p0) => exists|i: int|
                        0 <= i < old(self).kids(p0 as int).len() && old(self).kids(p0 as int)[i]
                            == id && final(self).kids(p0 as int) == old(self).kids(
                            p0 as int,
                        ).remove(i),
                    None => true,
                })
            },
    {
        let ghost pre = *self;
        if !(id < self.nodes.len() && self.nodes[id].is_some()) {
            return false;
        }
        if id == 0 {
            return false;
        }
        let list = self.subtree_ids(id);
        let old_parent = match &self.nodes[id] {
            Some(node) => node.parent,
            None => None,
        };
        let ghost mut gidx: int = 0;
        match old_parent {
            Some(p0) => {
                proof {
                    assert(pre.kids(p0 as int).contains(id));
                }
                let found = match &self.nodes[p0] {
                    Some(node) => find_usize(&node.children, id),
                    None => None,
                };
                let idx = match found {
                    Some(i) => i,
                    None => 0,
                };
                proof {
                    assert(found is Some);
                    gidx = idx as int;
                }
                match &mut self.nodes[p0] {
                    Some(node) => {
                        node.children.remove(idx);
                    },
                    None => {},
                }
                proof {
                    assert(self.node_of(p0 as int).children@ == pre.kids(p0 as int).remove(gidx));
                    assert(self.node_of(p0 as int).parent == pre.node_of(p0 as int).parent);
                    assert(self.node_of(p0 as int).height == pre.node_of(p0 as int).height);
                    assert(self.node_of(p0 as int).content == pre.node_of(p0 as int).content);
                    assert(forall|k: int|
                        0 <= k < self.nodes@.len() && k != p0 as int ==> self.nodes@[k]
                            == pre.nodes@[k]);
                    // The subtree root is not its own parent, so its slot
                    // survived the detachment untouched.
                    assert(p0 != id) by {
                        if p0 == id {
                            assert(pre.height_of(id as int) as int == pre.height_of(
                                id as int,
                            ) as int + 1);
                        }
                    }
                }
            },
            None => {},
        }
        let ghost mid1 = *self;
        let mut t: usize = 0;
        while t < list.len()
            invariant
                self.nodes@.len() == mid1.nodes@.len(),
                t <= list@.len(),
                list@.no_duplicates(),
                forall|i: int| 0 <= i < list@.len() ==> (#[trigger] list@[i] as int)
                    < mid1.nodes@.len(),
                forall|k: int|
                    0 <= k < self.nodes@.len() && !list@.contains(k as usize) ==> self.nodes@[k]
                        == mid1.nodes@[k],
                forall|i: int| 0 <= i < t ==> self.nodes@[#[trigger] list@[i] as int] is None,
                forall|i: int|
                    t <= i < list@.len() ==> self.nodes@[#[trigger] list@[i] as int]
                        == mid1.nodes@[list@[i] as int],
            decreases list@.len() - t,
        {
            let n = list[t];
            self.nodes[n] = None;
            proof {
                assert forall|i: int|
                    t + 1 <= i < list@.len() implies self.nodes@[#[trigger] list@[i] as int]
                    == mid1.nodes@[list@[i] as int] by {
                    assert(list@[i] != n);
                }
                assert forall|k: int|
                    0 <= k < self.nodes@.len() && !list@.contains(k as usize) implies self
                        .nodes@[k] == mid1.nodes@[k] by {
                    assert(k != n as int);
                }
            }
            t += 1;
        }
        proof {
            remove_final_proof(pre, mid1, *self, id, list@, gidx);
        }
        true
    }
}

/// What the removal loop leaves behind is well formed and has the
/// promised shape.
#[verifier::rlimit(60)]
proof fn remove_final_proof(pre: Tree, mid1: Tree, post: Tree, id: usize, list: Seq<usize>, idx: int)
    requires
        pre.wf(),
        pre.present(id as int),
        id != 0,
        list.len() >= 1 && list[0] == id,
        list.no_duplicates(),
        forall|i: int|
            0 <= i < list.len() ==> pre.present(#[trigger] list[i] as int) && pre.has_ancestor(
                list[i] as int,
                id as int,
            ),
        forall|n: int|
            pre.present(n) && pre.has_ancestor(n, id as int) ==> list.contains(n as usize),
        mid1.nodes@.len() == pre.nodes@.len(),
        pre.parent_of(id as int) is Some ==> 0 <= idx < pre.kids(
            pre.parent_get(id as int) as int,
        ).len() && pre.kids(pre.parent_get(id as int) as int)[idx] == id,
        forall|k: int|
            0 <= k < mid1.nodes@.len() && !(pre.parent_of(id as int) == Some(k as usize))
                ==> mid1.nodes@[k] == pre.nodes@[k],
        match pre.parent_of(id as int) {
            Some(p0) => mid1.present(p0 as int) && mid1.node_of(p0 as int).children@ == pre.kids(
                p0 as int,
            ).remove(idx) && mid1.node_of(p0 as int).parent == pre.node_of(p0 as int).parent
                && mid1.node_of(p0 as int).height == pre.node_of(p0 as int).height
                && mid1.node_of(p0 as int).content == pre.node_of(p0 as int).content && p0 != id,
            None => mid1 == pre,
        },
        post.nodes@.len() == mid1.nodes@.len(),
        forall|k: int|
            0 <= k < post.nodes@.len() && !list.contains(k as usize) ==> post.nodes@[k]
                == mid1.nodes@[k],
        forall|i: int| 0 <= i < list.len() ==> post.nodes@[#[trigger] list[i] as int] is None,
    ensures
        post.wf(),
        forall|k: int|
            post.present(k) == (pre.present(k) && !pre.has_ancestor(k, id as int)),
        forall|k: int|
            post.present(k) ==> post.parent_of(k) == pre.parent_of(k) && post.height_of(k)
                == pre.height_of(k) && post.content_of(k) == pre.content_of(k),
        forall|k: int|
            post.present(k) && !(pre.parent_of(id as int) == Some(k as usize)) ==> post.kids(k)
                == pre.kids(k),
        match pre.parent_of(id as int) {
            Some(p0) => post.kids(p0 as int) == pre.kids(p0 as int).remove(idx),
            None => true,
        },
{
    let p0o = pre.parent_of(id as int);
    assert(pre.nodes@.len() <= usize::MAX) by {
        assert(pre.nodes.len() == pre.nodes@.len());
    }
    // The old parent of the dropped root sits outside the subtree.
    if p0o is Some {
        pre.lemma_no_cycles(id as int);
    }
    // List membership is exactly subtree membership.
    assert forall|k: int| 0 <= k < pre.nodes@.len() implies (list.contains(k as usize) == (
    pre.present(k) && pre.has_ancestor(k, id as int))) by {
        if list.contains(k as usize) {
            let i = choose|i: int| 0 <= i < list.len() && list[i] == k as usize;
            assert(pre.present(list[i] as int) && pre.has_ancestor(list[i] as int, id as int));
            assert(list[i] as int == k);
        }
    }
    // Presence after the drop.
    assert forall|k: int| post.present(k) == (pre.present(k) && !pre.has_ancestor(
        k,
        id as int,
    )) by {
        if 0 <= k < pre.nodes@.len() {
            if list.contains(k as usize) {
                let i = choose|i: int| 0 <= i < list.len() && list[i] == k as usize;
                assert(post.nodes@[list[i] as int] is None);
                assert(list[i] as int == k);
            } else {
                assert(post.nodes@[k] == mid1.nodes@[k]);
            }
        }
    }
    // Survivors keep their slots, up to the one shortened child list.
    assert forall|k: int| post.present(k) implies post.parent_of(k) == pre.parent_of(k)
        && post.height_of(k) == pre.height_of(k) && post.content_of(k) == pre.content_of(k) && (!(
    p0o == Some(k as usize)) ==> post.kids(k) == pre.kids(k)) && (p0o == Some(k as usize)
        ==> post.kids(k) == pre.kids(pre.parent_get(id as int) as int).remove(idx)) by {
        assert(!list.contains(k as usize));
        assert(post.nodes@[k] == mid1.nodes@[k]);
    }
    // A survivor's parent survives: it cannot sit in the subtree.
    assert forall|k: int| post.present(k) && pre.parent_of(k) is Some implies post.present(
        pre.parent_get(k) as int,
    ) by {
        let p = pre.parent_get(k);
        if pre.has_ancestor(p as int, id as int) {
            assert(pre.has_ancestor(k, id as int));
        }
    }
    // Well-formedness of what is left.
    assert(post.present(0)) by {
        if pre.has_ancestor(0, id as int) {
        }
    }
    assert forall|q: int| #[trigger] post.present(q) implies post.node_ok(q) by {
        assert(pre.present(q) && pre.node_ok(q));
        match pre.parent_of(q) {
            Some(p) => {
                assert(post.present(p as int));
                if p0o == Some(p) {
                    assert(q as usize != id);
                    lemma_remove_membership(pre.kids(p as int), idx, q as usize);
                    assert(post.kids(p as int).contains(q as usize));
                } else {
                    assert(post.kids(p as int) == pre.kids(p as int));
                }
            },
            None => {},
        }
        // Children of a survivor survive.
        assert forall|i: int| 0 <= i < post.kids(q).len() implies post.present(
            #[trigger] post.kids(q)[i] as int,
        ) && post.parent_of(post.kids(q)[i] as int) == Some(q as usize) by {
            let c = post.kids(q)[i];
            assert(pre.kids(q).contains(c)) by {
                if p0o == Some(q as usize) {
                    let s = pre.kids(q);
                    let si = if i < idx {
                        i
                    } else {
                        i + 1
                    };
                    assert(post.kids(q)[i] == s[si]);
                } else {
                }
            }
            assert(pre.present(c as int) && pre.parent_of(c as int) == Some(q as usize));
            assert(c != id) by {
                if c == id {
                    if p0o == Some(q as usize) {
                        lemma_remove_membership(pre.kids(q), idx, id);
                    } else {
                        assert(pre.parent_of(id as int) == Some(q as usize));
                    }
                }
            }
            assert(!pre.has_ancestor(c as int, id as int)) by {
                if pre.has_ancestor(c as int, id as int) {
                    assert(pre.has_ancestor(q, id as int));
                }
            }
        }
        assert(post.kids(q).no_duplicates()) by {
            if p0o == Some(q as usize) {
                let s = pre.kids(q);
                assert forall|i: int, j: int|
                    0 <= i < j < post.kids(q).len() implies post.kids(q)[i] != post.kids(
                    q,
                )[j] by {
                    let si = if i < idx {
                        i
                    } else {
                        i + 1
                    };
                    let sj = if j < idx {
                        j
                    } else {
                        j + 1
                    };
                    assert(post.kids(q)[i] == s[si] && post.kids(q)[j] == s[sj]);
                }
            }
        }
    }
}

/// One step of the collection loop keeps sibling order: the pushed child
/// sits earlier in the child list than every waiting node of the same
/// parent below it, and nothing collected shares its parent yet.
#[verifier::rlimit(100)]
proof fn dfs_sib_step(
    t: Tree,
    root: usize,
    n: usize,
    res0: Seq<usize>,
    res1: Seq<usize>,
    stk1: Seq<usize>,
    stk_pre: Seq<usize>,
    stk_now: Seq<usize>,
    kl: Seq<usize>,
    k: int,
    c: usize,
)
    requires
        t.wf(),
        t.present(root as int),
        t.present(n as int),
        t.has_ancestor(n as int, root as int),
        res1 == res0.push(n),
        !res0.contains(n),
        res1.no_duplicates(),
        res1[0] == root,
        forall|i: int|
            1 <= i < res1.len() ==> t.parent_of(#[trigger] res1[i] as int) is Some
                && res1.subrange(0, i).contains(t.parent_get(res1[i] as int)),
        kl.len() == t.kids(n as int).len(),
        forall|i: int| 0 <= i < kl.len() ==> kl[i] == t.kids(n as int)[kl.len() - 1 - i],
        0 <= k < kl.len(),
        c == kl[k],
        stk_now == stk_pre.push(c),
        stk_pre == stk1 + kl.subrange(0, k),
        forall|i: int|
            0 <= i < stk1.len() ==> (stk1[i] == root || (t.parent_of(
                #[trigger] stk1[i] as int,
            ) is Some && res0.contains(t.parent_get(stk1[i] as int)))),
        forall|i: int, j: int|
            0 <= i < j < stk_pre.len() && #[trigger] t.same_parent(stk_pre[i], stk_pre[j])
                ==> t.sib_before(stk_pre[j], stk_pre[i]),
        forall|i: int, j: int|
            0 <= i < res1.len() && 0 <= j < stk_pre.len() && #[trigger] t.same_parent(
                res1[i],
                stk_pre[j],
            ) ==> t.sib_before(res1[i], stk_pre[j]),
    ensures
        forall|i: int, j: int|
            0 <= i < j < stk_now.len() && #[trigger] t.same_parent(stk_now[i], stk_now[j])
                ==> t.sib_before(stk_now[j], stk_now[i]),
        forall|i: int, j: int|
            0 <= i < res1.len() && 0 <= j < stk_now.len() && #[trigger] t.same_parent(
                res1[i],
                stk_now[j],
            ) ==> t.sib_before(res1[i], stk_now[j]),
{
    let cw = kl.len() - 1 - k;
    assert(t.kids(n as int)[cw] == c);
    assert(t.parent_of(c as int) == Some(n));
    assert forall|i: int, j: int|
        0 <= i < j < stk_now.len() && #[trigger] t.same_parent(stk_now[i], stk_now[j]) implies
        t.sib_before(stk_now[j], stk_now[i]) by {
        if j == stk_now.len() - 1 {
            assert(stk_now[j] == c);
            let s = stk_now[i];
            assert(stk_pre[i] == s);
            if i < stk1.len() {
                assert(stk1[i] == s);
                if t.same_parent(s, c) {
                    assert(t.parent_of(s as int) == Some(n));
                    if s == root {
                        t.lemma_ancestor_height(n as int, root as int);
                        assert(false);
                    } else {
                        assert(res0.contains(n));
                        assert(false);
                    }
                }
            } else {
                let kp = i - stk1.len();
                assert(kl.subrange(0, k)[kp] == s);
                assert(kl[kp] == s);
                let sw = kl.len() - 1 - kp;
                assert(t.kids(n as int)[sw] == s);
                if t.same_parent(s, c) {
                    t.lemma_kid_index(n as int, sw);
                    t.lemma_kid_index(n as int, cw);
                    assert(t.kid_index(n as int, c) == cw);
                    assert(t.kid_index(n as int, s) == sw);
                    assert(cw < sw);
                }
            }
        } else {
            assert(stk_pre[i] == stk_now[i] && stk_pre[j] == stk_now[j]);
        }
    }
    assert forall|i: int, j: int|
        0 <= i < res1.len() && 0 <= j < stk_now.len() && #[trigger] t.same_parent(
            res1[i],
            stk_now[j],
        ) implies t.sib_before(res1[i], stk_now[j]) by {
        if j == stk_now.len() - 1 {
            assert(stk_now[j] == c);
            if t.same_parent(res1[i], c) {
                assert(t.parent_of(res1[i] as int) == Some(n));
                if i == res1.len() - 1 {
                    assert(res1[i] == n);
                    assert(t.height_of(n as int) as int == t.height_of(n as int) as int + 1);
                } else {
                    assert(res1.subrange(0, i).contains(n) || i == 0) by {
                        if i >= 1 {
                            assert(res1.subrange(0, i).contains(t.parent_get(res1[i] as int)));
                        }
                    }
                    if i == 0 {
                        assert(res1[0] == root);
                        assert(t.parent_of(root as int) == Some(n));
                        t.lemma_ancestor_height(n as int, root as int);
                    } else {
                        let q = choose|q: int| 0 <= q < i && res1.subrange(0, i)[q] == n;
                        assert(res1[q] == n);
                        assert(res0[q] == n);
                        assert(res0.contains(n));
                    }
                }
                assert(false);
            }
        } else {
            assert(stk_pre[j] == stk_now[j]);
        }
    }
}

/// Removing one position only takes that entry's value out of a
/// duplicate-free list.
pub proof fn lemma_remove_membership(s: Seq<usize>, idx: int, x: usize)
    requires
        0 <= idx < s.len(),
        s.no_duplicates(),
    ensures
        x != s[idx] ==> (s.remove(idx).contains(x) == s.contains(x)),
        !s.remove(idx).contains(s[idx]),
{
    let r = s.remove(idx);
    if x != s[idx] {
        if s.contains(x) {
            let i = choose|i: int| 0 <= i < s.len() && s[i] == x;
            if i < idx {
                assert(r[i] == x);
            } else {
                assert(r[i - 1] == x);
            }
        }
        if r.contains(x) {
            let i = choose|i: int| 0 <= i < r.len() && r[i] == x;
            if i < idx {
                assert(s[i] == x);
            } else {
                assert(s[i + 1] == x);
            }
        }
    }
    if r.contains(s[idx]) {
        let i = choose|i: int| 0 <= i < r.len() && r[i] == s[idx];
        if i < idx {
            assert(s[i] == s[idx]);
        } else {
            assert(s[i + 1] == s[idx]);
        }
    }
}

/// Inserting a value leaves every other value's membership alone, and a
/// fresh value keeps the list duplicate-free.
pub proof fn lemma_insert_membership(s: Seq<usize>, pos: int, v: usize, x: usize)
    requires
        0 <= pos <= s.len(),
    ensures
        x != v ==> (s.insert(pos, v).contains(x) == s.contains(x)),
        s.insert(pos, v).contains(v),
        s.no_duplicates() && !s.contains(v) ==> s.insert(pos, v).no_duplicates(),
{
    let r = s.insert(pos, v);
    assert(r[pos] == v);
    if x != v {
        if s.contains(x) {
            let i = choose|i: int| 0 <= i < s.len() && s[i] == x;
            if i < pos {
                assert(r[i] == x);
            } else {
                assert(r[i + 1] == x);
            }
        }
        if r.contains(x) {
            let i = choose|i: int| 0 <= i < r.len() && r[i] == x;
            if i < pos {
                assert(s[i] == x);
            } else {
                assert(i != pos);
                assert(s[i - 1] == x);
            }
        }
    }
    if s.no_duplicates() && !s.contains(v) {
        assert forall|i: int, j: int| 0 <= i < j < r.len() implies r[i] != r[j] by {
            if i == pos {
                if s.contains(r[j]) == false {
                } else {
                }
                assert(r[j] == s[j - 1]);
                assert(s.contains(s[j - 1]));
            } else if j == pos {
                assert(r[i] == s[i]);
                assert(s.contains(s[i]));
            } else {
                let si = if i < pos {
                    i
                } else {
                    i - 1
                };
                let sj = if j < pos {
                    j
                } else {
                    j - 1
                };
                assert(r[i] == s[si] && r[j] == s[sj]);
            }
        }
    }
}

/// The state after a successful attachment is well formed and has the
/// promised shape. `kad` is the child list of each node after the child
/// left its old parent; `idx` its old position there; `pos` where it went
/// in under the new parent.
#[verifier::rlimit(60)]
proof fn attach_final_proof(
    pre: Tree,
    mid3: Tree,
    post: Tree,
    parent: usize,
    child: usize,
    anchor: Option<(usize, bool)>,
    list: Seq<usize>,
    parent_h: u16,
    child_h: u16,
    idx: int,
    pos: int,
)
    requires
        pre.wf(),
        pre.attach_ok(parent, child, anchor),
        parent_h == pre.height_of(parent as int),
        child_h == pre.height_of(child as int),
        list.len() >= 1 && list[0] == child,
        list.no_duplicates(),
        forall|i: int|
            0 <= i < list.len() ==> pre.present(#[trigger] list[i] as int) && pre.has_ancestor(
                list[i] as int,
                child as int,
            ),
        forall|n: int|
            pre.present(n) && pre.has_ancestor(n, child as int) ==> list.contains(n as usize),
        mid3.nodes@.len() == pre.nodes@.len(),
        forall|k: int| mid3.present(k) == pre.present(k),
        forall|k: int| pre.present(k) ==> mid3.content_of(k) == pre.content_of(k),
        forall|k: int| pre.present(k) ==> mid3.height_of(k) == pre.height_of(k),
        mid3.parent_of(child as int) == Some(parent),
        forall|k: int|
            pre.present(k) && k != child ==> mid3.parent_of(k) == pre.parent_of(k),
        pre.parent_of(child as int) is Some ==> 0 <= idx < pre.kids(
            pre.parent_get(child as int) as int,
        ).len() && pre.kids(pre.parent_get(child as int) as int)[idx] == child,
        forall|k: int|
            pre.present(k) && k != parent ==> mid3.kids(k) == kids_after_detach(
                pre,
                child,
                idx,
                k,
            ),
        0 <= pos <= kids_after_detach(pre, child, idx, parent as int).len(),
        mid3.kids(parent as int) == kids_after_detach(pre, child, idx, parent as int).insert(
            pos,
            child,
        ),
        match anchor {
            Some((sib, after)) => {
                if after {
                    pos >= 1 && kids_after_detach(pre, child, idx, parent as int)[pos - 1] == sib
                } else {
                    pos < kids_after_detach(pre, child, idx, parent as int).len()
                        && kids_after_detach(pre, child, idx, parent as int)[pos] == sib
                }
            },
            None => pos == kids_after_detach(pre, child, idx, parent as int).len(),
        },
        post.nodes@.len() == mid3.nodes@.len(),
        forall|k: int| post.present(k) == mid3.present(k),
        forall|k: int|
            post.present(k) && !list.contains(k as usize) ==> post.node_of(k) == mid3.node_of(k),
        forall|i: int|
            0 <= i < list.len() ==> post.node_of(#[trigger] list[i] as int).parent
                == mid3.node_of(list[i] as int).parent && post.node_of(list[i] as int).children
                == mid3.node_of(list[i] as int).children && post.node_of(list[i] as int).content
                == mid3.node_of(list[i] as int).content && post.height_of(list[i] as int) as int
                == parent_h + 1 + mid3.height_of(list[i] as int) - child_h,
    ensures
        post.wf(),
        Tree::attached_shape(pre, post, parent, child, anchor),
{
    // The old parent, the new parent and the root all sit outside the
    // moved subtree.
    assert(!pre.has_ancestor(parent as int, child as int));
    if pre.parent_of(child as int) is Some {
        pre.lemma_no_cycles(child as int);
    }
    assert(child != 0 && !pre.has_ancestor(0, child as int)) by {
        if pre.has_ancestor(0, child as int) {
        }
    }
    // A node outside the subtree keeps its parent outside too.
    assert forall|q: int|
        pre.present(q) && !pre.has_ancestor(q, child as int) && pre.parent_of(q)
            is Some implies !pre.has_ancestor(#[trigger] pre.parent_get(q) as int, child as int) by {
        if pre.has_ancestor(pre.parent_get(q) as int, child as int) {
            assert(pre.has_ancestor(q, child as int));
        }
    }
    // Heights of subtree members reach at least the child's height.
    assert forall|q: int|
        pre.present(q) && #[trigger] pre.has_ancestor(q, child as int) implies pre.height_of(q)
        >= child_h by {
        pre.lemma_ancestor_height(q, child as int);
    }
    // Where each piece of the post state comes from.
    assert forall|q: int| post.present(q) implies (if pre.has_ancestor(q, child as int) {
        post.node_of(q).parent == mid3.node_of(q).parent && post.node_of(q).children
            == mid3.node_of(q).children && post.node_of(q).content == mid3.node_of(q).content
            && post.height_of(q) as int == parent_h + 1 + pre.height_of(q) - child_h
    } else {
        post.node_of(q) == mid3.node_of(q)
    }) by {
        assert(pre.present(q));
        assert(post.nodes@.len() <= usize::MAX) by {
            assert(post.nodes.len() == post.nodes@.len());
        }
        if pre.has_ancestor(q, child as int) {
            assert(list.contains(q as usize));
            let i = choose|i: int| 0 <= i < list.len() && list[i] == q as usize;
            assert(list[i] as int == q);
            assert(post.node_of(list[i] as int).parent == mid3.node_of(list[i] as int).parent);
            assert(post.height_of(list[i] as int) as int == parent_h + 1 + mid3.height_of(
                list[i] as int,
            ) - child_h);
            assert(mid3.height_of(q) == pre.height_of(q));
        } else {
            assert(!list.contains(q as usize)) by {
                if list.contains(q as usize) {
                    let i = choose|i: int| 0 <= i < list.len() && list[i] == q as usize;
                    assert(pre.has_ancestor(list[i] as int, child as int));
                    assert(list[i] as int == q);
                }
            }
        }
    }
    let p0o = pre.parent_of(child as int);
    // Child-list membership across detach and insert.
    assert forall|k: int, x: usize| pre.present(k) && x != child implies (post.kids(k).contains(x)
        == pre.kids(k).contains(x)) by {
        if p0o is Some && k == p0o->0 {
            lemma_remove_membership(pre.kids(k), idx, x);
        }
        if k == parent {
            lemma_insert_membership(
                kids_after_detach(pre, child, idx, parent as int),
                pos,
                child,
                x,
            );
        }
    }
    // The child now sits only under the new parent.
    assert(post.kids(parent as int).contains(child)) by {
        lemma_insert_membership(
            kids_after_detach(pre, child, idx, parent as int),
            pos,
            child,
            child,
        );
    }
    assert forall|k: int| pre.present(k) && k != parent implies !post.kids(k).contains(child) by {
        assert(post.present(k));
        assert(post.nodes@.len() <= usize::MAX) by {
            assert(post.nodes.len() == post.nodes@.len());
        }
        if pre.has_ancestor(k, child as int) {
            assert(list.contains(k as usize));
            let i = choose|i: int| 0 <= i < list.len() && list[i] == k as usize;
            assert(list[i] as int == k);
            assert(post.node_of(list[i] as int).children == mid3.node_of(list[i] as int).children);
        } else {
            assert(!list.contains(k as usize)) by {
                if list.contains(k as usize) {
                    let i = choose|i: int| 0 <= i < list.len() && list[i] == k as usize;
                    assert(pre.has_ancestor(list[i] as int, child as int));
                    assert(list[i] as int == k);
                }
            }
            assert(post.node_of(k) == mid3.node_of(k));
        }
        assert(post.kids(k) == mid3.kids(k));
        assert(mid3.kids(k) == kids_after_detach(pre, child, idx, k));
        if p0o is Some && k == p0o->0 {
            lemma_remove_membership(pre.kids(k), idx, child);
        } else {
            if post.kids(k).contains(child) {
                assert(pre.kids(k).contains(child));
                assert(pre.parent_of(child as int) == Some(k as usize));
            }
        }
    }
    // The new parent's list stays duplicate-free.
    assert(post.kids(parent as int).no_duplicates()) by {
        let kad = kids_after_detach(pre, child, idx, parent as int);
        assert(kad.no_duplicates()) by {
            if p0o is Some && parent as int == p0o->0 {
                assert(kad == pre.kids(parent as int).remove(idx));
                assert forall|i: int, j: int| 0 <= i < j < kad.len() implies kad[i] != kad[j] by {
                    let s = pre.kids(parent as int);
                    let si = if i < idx {
                        i
                    } else {
                        i + 1
                    };
                    let sj = if j < idx {
                        j
                    } else {
                        j + 1
                    };
                    assert(kad[i] == s[si] && kad[j] == s[sj]);
                }
            }
        }
        assert(!kad.contains(child)) by {
            if p0o is Some && parent as int == p0o->0 {
                lemma_remove_membership(pre.kids(parent as int), idx, child);
            } else {
                if kad.contains(child) {
                    assert(pre.kids(parent as int).contains(child));
                    assert(pre.parent_of(child as int) == Some(parent));
                }
            }
        }
        lemma_insert_membership(kad, pos, child, child);
    }
    // Well-formedness, node by node.
    assert forall|q: int| #[trigger] post.present(q) implies post.node_ok(q) by {
        assert(pre.present(q));
        assert(pre.node_ok(q));
        assert(post.nodes@.len() <= usize::MAX) by {
            assert(post.nodes.len() == post.nodes@.len());
        }
        assert(pre.has_ancestor(child as int, child as int));
        if pre.has_ancestor(q, child as int) {
            if q == child {
                assert(post.parent_of(q) == Some(parent));
                assert(post.height_of(q) as int == parent_h + 1);
                assert(post.height_of(parent as int) == parent_h);
            } else {
                let p = pre.parent_get(q);
                assert(pre.has_ancestor(p as int, child as int));
                assert(post.parent_of(q) == Some(p));
                assert(post.kids(p as int) == pre.kids(p as int));
                assert(post.kids(p as int).contains(q as usize));
                assert(post.height_of(q) as int == post.height_of(p as int) + 1);
            }
        } else {
            match pre.parent_of(q) {
                Some(p) => {
                    assert(!pre.has_ancestor(p as int, child as int));
                    assert(post.parent_of(q) == pre.parent_of(q));
                    assert(post.height_of(q) == pre.height_of(q));
                    assert(post.height_of(p as int) == pre.height_of(p as int));
                    assert(post.kids(p as int).contains(q as usize)) by {
                        assert(q as usize != child);
                        assert(pre.kids(p as int).contains(q as usize));
                    }
                },
                None => {
                    assert(post.height_of(q) == pre.height_of(q));
                },
            }
        }
        // The child list of q.
        if q == parent as int {
        } else {
            assert(post.kids(q).no_duplicates()) by {
                if p0o is Some && q == p0o->0 {
                    let s = pre.kids(q);
                    assert forall|i: int, j: int|
                        0 <= i < j < post.kids(q).len() implies post.kids(q)[i] != post.kids(
                        q,
                    )[j] by {
                        let si = if i < idx {
                            i
                        } else {
                            i + 1
                        };
                        let sj = if j < idx {
                            j
                        } else {
                            j + 1
                        };
                        assert(post.kids(q)[i] == s[si] && post.kids(q)[j] == s[sj]);
                    }
                } else {
                    assert(post.kids(q) == pre.kids(q));
                }
            }
        }
        assert forall|i: int| 0 <= i < post.kids(q).len() implies post.present(
            #[trigger] post.kids(q)[i] as int,
        ) && post.parent_of(post.kids(q)[i] as int) == Some(q as usize) by {
            let c = post.kids(q)[i];
            assert(post.kids(q).contains(c));
            if c == child {
                assert(q == parent as int) by {
                    if q != parent as int {
                        assert(!post.kids(q).contains(child));
                    }
                }
            } else {
                assert(pre.kids(q).contains(c));
                let ci = choose|ci: int| 0 <= ci < pre.kids(q).len() && pre.kids(q)[ci] == c;
                assert(pre.present(c as int) && pre.parent_of(c as int) == Some(q as usize));
                assert(post.parent_of(c as int) == Some(q as usize));
            }
        }
        assert(content_wf(post.content_of(q)));
    }
    assert(post.wf());
    // The promised shape.
    assert(Tree::attached_shape(pre, post, parent, child, anchor)) by {
        assert forall|n: int|
            pre.present(n) && #[trigger] pre.has_ancestor(n, child as int) implies post.height_of(
            n,
        ) as int == parent_h + 1 + pre.height_of(n) - child_h by {}
        match anchor {
            Some((sib, after)) => {
                let kk = post.kids(parent as int);
                let kad = kids_after_detach(pre, child, idx, parent as int);
                assert(kk == kad.insert(pos, child));
                assert(kk[pos] == child);
                if after {
                    assert(kk[pos - 1] == kad[pos - 1]);
                } else {
                    assert(kk[pos + 1] == kad[pos]);
                }
            },
            None => {
                assert(post.kids(parent as int).last() == child);
            },
        }
    }
}

/// Each node's child list once the child has left its old position:
/// everyone else's list is untouched.
pub open spec fn kids_after_detach(pre: Tree, child: usize, idx: int, k: int) -> Seq<usize> {
    match pre.parent_of(child as int) {
        Some(p0) => if k == p0 as int {
            pre.kids(k).remove(idx)
        } else {
            pre.kids(k)
        },
        None => pre.kids(k),
    }
}

/// How many of the first `n` slots are live.
pub open spec fn count_present(s: Seq<Option<Node>>, n: int) -> int
    decreases n,
{
    if n <= 0 {
        0
    } else {
        count_present(s, n - 1) + if s[n - 1] is Some {
            1int
        } else {
            0int
        }
    }
}

/// A live slot among the first `n` means at least one is counted.
pub proof fn lemma_count_present_at_least_one(s: Seq<Option<Node>>, n: int, w: int)
    requires
        0 <= w < n,
        s[w] is Some,
    ensures
        count_present(s, n) >= 1,
    decreases n,
{
    if w < n - 1 {
        lemma_count_present_at_least_one(s, n - 1, w);
    } else {
        lemma_count_present_bounds(s, n - 1);
    }
}

/// The count of live slots lies between zero and `n`.
pub proof fn lemma_count_present_bounds(s: Seq<Option<Node>>, n: int)
    ensures
        0 <= count_present(s, n),
        n >= 0 ==> count_present(s, n) <= n,
    decreases n,
{
    if n > 0 {
        lemma_count_present_bounds(s, n - 1);
    }
}

/// Copy a list of identities.
pub(crate) fn copy_usizes(v: &Vec<usize>) -> (r: Vec<usize>)
    ensures
        r@ == v@,
{
    let mut r: Vec<usize> = Vec::new();
    let mut i: usize = 0;
    while i < v.len()
        invariant
            i <= v@.len(),
            r@ == v@.subrange(0, i as int),
        decreases v@.len() - i,
    {
        r.push(v[i]);
        i += 1;
    }
    proof {
        assert(r@ =~= v@);
    }
    r
}

/// Copy a list of identities back to front.
pub(crate) fn copy_usizes_rev(v: &Vec<usize>) -> (r: Vec<usize>)
    ensures
        r@.len() == v@.len(),
        forall|i: int| 0 <= i < v@.len() ==> r@[i] == v@[v@.len() - 1 - i],
{
    let mut r: Vec<usize> = Vec::new();
    let mut i: usize = v.len();
    while i > 0
        invariant
            i <= v@.len(),
            r@.len() == v@.len() - i,
            forall|j: int| 0 <= j < r@.len() ==> r@[j] == v@[v@.len() - 1 - j],
        decreases i,
    {
        i -= 1;
        r.push(v[i]);
    }
    r
}

/// The position of `x` in a list, if it is there.
pub(crate) fn find_usize(v: &Vec<usize>, x: usize) -> (r: Option<usize>)
    ensures
        match r {
            Some(i) => i < v@.len() && v@[i as int] == x,
            None => !v@.contains(x),
        },
{
    let mut i: usize = 0;
    while i < v.len()
        invariant
            i <= v@.len(),
            forall|j: int| 0 <= j < i ==> v@[j] != x,
        decreases v@.len() - i,
    {
        if v[i] == x {
            return Some(i);
        }
        i += 1;
    }
    None
}

} // verus!
