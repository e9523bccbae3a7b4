//! Change masks: which observable facets of a node an edit touched, and
//! which facets a pass declares interest in. Masks support union and an
//! overlap test; both are the basis of minimal dirty marking.
use vstd::prelude::*;

use crate::node::str_set;

verus! {

/// Which attributes a mask covers: all of them, or a listed few.
pub enum AttributeMask {
    All,
    Listed(Vec<String>),
}

/// A change mask: the attribute part plus one flag per remaining facet.
pub struct NodeMask {
    pub attrs: AttributeMask,
    pub tag: bool,
    pub namespace: bool,
    pub text: bool,
    pub listeners: bool,
}

/// The mathematical value of a mask. `attrs` is `None` when every attribute
/// is covered, otherwise the set of covered attribute names.
#[verifier::ext_equal]
pub struct MaskView {
    pub attrs: Option<Set<Seq<char>>>,
    pub tag: bool,
    pub namespace: bool,
    pub text: bool,
    pub listeners: bool,
}

impl View for AttributeMask {
    type V = Option<Set<Seq<char>>>;

    open spec fn view(&self) -> Option<Set<Seq<char>>> {
        match self {
            AttributeMask::All => None,
            AttributeMask::Listed(v) => Some(str_set(v@)),
        }
    }
}

impl View for NodeMask {
    type V = MaskView;

    open spec fn view(&self) -> MaskView {
        MaskView {
            attrs: self.attrs@,
            tag: self.tag,
            namespace: self.namespace,
            text: self.text,
            listeners: self.listeners,
        }
    }
}

/// Union of two attribute parts: everything stays everything.
pub open spec fn am_union(a: Option<Set<Seq<char>>>, b: Option<Set<Seq<char>>>) -> Option<
    Set<Seq<char>>,
> {
    match (a, b) {
        (Some(s1), Some(s2)) => Some(s1.union(s2)),
        _ => None,
    }
}

/// Whether a name set holds anything at all.
pub open spec fn set_nonempty(s: Set<Seq<char>>) -> bool {
    exists|x: Seq<char>| s.contains(x)
}

/// Whether two attribute parts overlap. A listed part overlaps the
/// all-attributes part exactly when it names anything at all.
pub open spec fn am_overlaps(a: Option<Set<Seq<char>>>, b: Option<Set<Seq<char>>>) -> bool {
    match (a, b) {
        (None, None) => true,
        (None, Some(s)) => set_nonempty(s),
        (Some(s), None) => set_nonempty(s),
        (Some(s1), Some(s2)) => set_nonempty(s1.intersect(s2)),
    }
}

/// Facet-wise union of two masks.
pub open spec fn mv_union(a: MaskView, b: MaskView) -> MaskView {
    MaskView {
        attrs: am_union(a.attrs, b.attrs),
        tag: a.tag || b.tag,
        namespace: a.namespace || b.namespace,
        text: a.text || b.text,
        listeners: a.listeners || b.listeners,
    }
}

/// Whether two masks share any facet.
pub open spec fn mv_overlaps(a: MaskView, b: MaskView) -> bool {
    ||| (a.tag && b.tag)
    ||| (a.namespace && b.namespace)
    ||| (a.text && b.text)
    ||| (a.listeners && b.listeners)
    ||| am_overlaps(a.attrs, b.attrs)
}

/// The mask that covers no facet.
pub open spec fn mv_empty() -> MaskView {
    MaskView { attrs: Some(Set::empty()), tag: false, namespace: false, text: false, listeners: false }
}

/// The mask that covers every facet.
pub open spec fn mv_all() -> MaskView {
    MaskView { attrs: None, tag: true, namespace: true, text: true, listeners: true }
}

/// The mask that covers the listener facet alone.
pub open spec fn mv_listeners() -> MaskView {
    MaskView { attrs: Some(Set::empty()), tag: false, namespace: false, text: false, listeners: true }
}

/// The mask that covers the text facet alone.
pub open spec fn mv_text() -> MaskView {
    MaskView { attrs: Some(Set::empty()), tag: false, namespace: false, text: true, listeners: false }
}

/// The mask that covers the tag facet alone.
pub open spec fn mv_tag() -> MaskView {
    MaskView { attrs: Some(Set::empty()), tag: true, namespace: false, text: false, listeners: false }
}

/// The mask that covers the namespace facet alone.
pub open spec fn mv_namespace() -> MaskView {
    MaskView { attrs: Some(Set::empty()), tag: false, namespace: true, text: false, listeners: false }
}

/// The mask that covers the single attribute named by `name`.
pub open spec fn mv_attr(name: Seq<char>) -> MaskView {
    MaskView {
        attrs: Some(Set::empty().insert(name)),
        tag: false,
        namespace: false,
        text: false,
        listeners: false,
    }
}

impl NodeMask {
    /// The mask that covers no facet.
    pub fn new_empty() -> (r: NodeMask)
        ensures
            r@ == mv_empty(),
    {
        let r = NodeMask {
            attrs: AttributeMask::Listed(Vec::new()),
            tag: false,
            namespace: false,
            text: false,
            listeners: false,
        };
        proof {
            assert(str_set(Seq::<String>::empty()) =~= Set::empty());
            assert(r@ =~= mv_empty());
        }
        r
    }

    /// The mask that covers every facet.
    pub fn new_all() -> (r: NodeMask)
        ensures
            r@ == mv_all(),
    {
        let r = NodeMask {
            attrs: AttributeMask::All,
            tag: true,
            namespace: true,
            text: true,
            listeners: true,
        };
        proof {
            assert(r@ =~= mv_all());
        }
        r
    }

    /// The mask that covers the listener facet alone.
    pub fn new_listeners() -> (r: NodeMask)
        ensures
            r@ == mv_listeners(),
    {
        let r = NodeMask {
            attrs: AttributeMask::Listed(Vec::new()),
            tag: false,
            namespace: false,
            text: false,
            listeners: true,
        };
        proof {
            assert(str_set(Seq::<String>::empty()) =~= Set::empty());
            assert(r@ =~= mv_listeners());
        }
        r
    }

    /// The mask that covers the text facet alone.
    pub fn new_text() -> (r: NodeMask)
        ensures
            r@ == mv_text(),
    {
        let r = NodeMask {
            attrs: AttributeMask::Listed(Vec::new()),
            tag: false,
            namespace: false,
            text: true,
            listeners: false,
        };
        proof {
            assert(str_set(Seq::<String>::empty()) =~= Set::empty());
            assert(r@ =~= mv_text());
        }
        r
    }

    /// The mask that covers the tag facet alone.
    pub fn new_tag() -> (r: NodeMask)
        ensures
            r@ == mv_tag(),
    {
        let r = NodeMask {
            attrs: AttributeMask::Listed(Vec::new()),
            tag: true,
            namespace: false,
            text: false,
            listeners: false,
        };
        proof {
            assert(str_set(Seq::<String>::empty()) =~= Set::empty());
            assert(r@ =~= mv_tag());
        }
        r
    }

    /// The mask that covers the namespace facet alone.
    pub fn new_namespace() -> (r: NodeMask)
        ensures
            r@ == mv_namespace(),
    {
        let r = NodeMask {
            attrs: AttributeMask::Listed(Vec::new()),
            tag: false,
            namespace: true,
            text: false,
            listeners: false,
        };
        proof {
            assert(str_set(Seq::<String>::empty()) =~= Set::empty());
            assert(r@ =~= mv_namespace());
        }
        r
    }

    /// The mask that covers the one attribute named `name`.
    pub fn new_attr(name: String) -> (r: NodeMask)
        ensures
            r@ == mv_attr(name@),
    {
        let ghost n: Seq<char> = name@;
        let mut v: Vec<String> = Vec::new();
        v.push(name);
        proof {
            assert(v@[0]@ == n);
            assert forall|x: Seq<char>| str_set(v@).contains(x) implies x == n by {
                let i = choose|i: int| 0 <= i < v@.len() && v@[i]@ == x;
                assert(i == 0);
            }
            assert(str_set(v@) =~= Set::empty().insert(n));
        }
        let r = NodeMask {
            attrs: AttributeMask::Listed(v),
            tag: false,
            namespace: false,
            text: false,
            listeners: false,
        };
        proof {
            assert(r@ =~= mv_attr(n));
        }
        r
    }

    /// The facet-wise union of two masks.
    pub fn union(&self, other: &NodeMask) -> (r: NodeMask)
        ensures
            r@ == mv_union(self@, other@),
    {
        let attrs = match (&self.attrs, &other.attrs) {
            (AttributeMask::Listed(a), AttributeMask::Listed(b)) => {
                let mut v = crate::node::clone_strings(a);
                let mut w = crate::node::clone_strings(b);
                v.append(&mut w);
                proof {
                    assert forall|x: Seq<char>| str_set(v@).contains(x) implies str_set(
                        a@,
                    ).union(str_set(b@)).contains(x) by {
                        let i = choose|i: int| 0 <= i < v@.len() && v@[i]@ == x;
                        if i < a@.len() {
                            assert(a@[i]@ == x);
                        } else {
                            assert(b@[i - a@.len()]@ == x);
                        }
                    }
                    assert forall|x: Seq<char>| str_set(a@).union(str_set(b@)).contains(
                        x,
                    ) implies str_set(v@).contains(x) by {
                        if str_set(a@).contains(x) {
                            let i = choose|i: int| 0 <= i < a@.len() && a@[i]@ == x;
                            assert(v@[i]@ == x);
                        } else {
                            let i = choose|i: int| 0 <= i < b@.len() && b@[i]@ == x;
                            assert(v@[a@.len() + i]@ == x);
                        }
                    }
                    assert(str_set(v@) =~= str_set(a@).union(str_set(b@)));
                }
                AttributeMask::Listed(v)
            },
            _ => AttributeMask::All,
        };
        let r = NodeMask {
            attrs,
            tag: self.tag || other.tag,
            namespace: self.namespace || other.namespace,
            text: self.text || other.text,
            listeners: self.listeners || other.listeners,
        };
        proof {
            assert(r@ =~= mv_union(self@, other@));
        }
        r
    }

    /// Whether this mask and `other` share any facet.
    pub fn overlaps(&self, other: &NodeMask) -> (r: bool)
        ensures
            r == mv_overlaps(self@, other@),
    {
        if self.tag && other.tag {
            return true;
        }
        if self.namespace && other.namespace {
            return true;
        }
        if self.text && other.text {
            return true;
        }
        if self.listeners && other.listeners {
            return true;
        }
        let attrs_overlap = match (&self.attrs, &other.attrs) {
            (AttributeMask::All, AttributeMask::All) => true,
            (AttributeMask::All, AttributeMask::Listed(v)) => Self::list_nonempty(v),
            (AttributeMask::Listed(v), AttributeMask::All) => Self::list_nonempty(v),
            (AttributeMask::Listed(a), AttributeMask::Listed(b)) => Self::lists_share(a, b),
        };
        attrs_overlap
    }

    /// Whether the list names anything, stated over the name set.
    fn list_nonempty(v: &Vec<String>) -> (r: bool)
        ensures
            r == set_nonempty(str_set(v@)),
    {
        proof {
            if v@.len() > 0 {
                assert(str_set(v@).contains(v@[0]@));
            } else {
                assert forall|x: Seq<char>| !str_set(v@).contains(x) by {}
            }
        }
        v.len() > 0
    }

    /// Whether two string lists share an entry, by characters.
    fn lists_share(a: &Vec<String>, b: &Vec<String>) -> (r: bool)
        ensures
            r == am_overlaps(Some(str_set(a@)), Some(str_set(b@))),
    {
        let mut i: usize = 0;
        while i < a.len()
            invariant
                i <= a@.len(),
                forall|j: int| 0 <= j < i ==> !str_set(b@).contains(#[trigger] a@[j]@),
            decreases a@.len() - i,
        {
            if crate::node::contains_string(b, &a[i]) {
                proof {
                    let ghost w: Seq<char> = a@[i as int]@;
                    assert(str_set(a@).contains(w));
                    assert(str_set(a@).intersect(str_set(b@)).contains(w));
                }
                return true;
            }
            i += 1;
        }
        proof {
            assert forall|x: Seq<char>| !str_set(a@).intersect(str_set(b@)).contains(x) by {
                if str_set(a@).contains(x) {
                    let j = choose|j: int| 0 <= j < a@.len() && a@[j]@ == x;
                    assert(!str_set(b@).contains(a@[j]@));
                }
            }
        }
        false
    }
}

/// Mask union is commutative on the mathematical values.
pub proof fn lemma_mask_union_commutes(a: MaskView, b: MaskView)
    ensures
        mv_union(a, b) == mv_union(b, a),
{
    match (a.attrs, b.attrs) {
        (Some(s1), Some(s2)) => {
            assert(s1.union(s2) =~= s2.union(s1));
        },
        _ => {},
    }
    assert(mv_union(a, b) =~= mv_union(b, a));
}

/// Mask union is associative on the mathematical values.
pub proof fn lemma_mask_union_assoc(a: MaskView, b: MaskView, c: MaskView)
    ensures
        mv_union(mv_union(a, b), c) == mv_union(a, mv_union(b, c)),
{
    match (a.attrs, b.attrs, c.attrs) {
        (Some(s1), Some(s2), Some(s3)) => {
            assert(s1.union(s2).union(s3) =~= s1.union(s2.union(s3)));
        },
        _ => {},
    }
    assert(mv_union(mv_union(a, b), c) =~= mv_union(a, mv_union(b, c)));
}

} // verus!
