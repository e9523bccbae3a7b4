//! Node content: the closed variant stored for every tree node (element,
//! text or placeholder), plus the helpers that keep listener lists and
//! attribute lists free of duplicates.
use vstd::map::*;
use vstd::prelude::*;

verus! {

/// An attribute is addressed by its name together with an optional namespace.
pub struct AttributeKey {
    pub name: String,
    pub namespace: Option<String>,
}

/// A plain attribute value.
pub enum AttributeValue {
    Text(String),
    Int(i64),
    Bool(bool),
}

/// An element: tag, optional namespace, attribute mapping and the set of
/// event names this node listens for.
pub struct ElementNode {
    pub tag: String,
    pub namespace: Option<String>,
    pub attributes: Vec<(AttributeKey, AttributeValue)>,
    pub listeners: Vec<String>,
}

/// A text node with its own listener set.
pub struct TextNode {
    pub text: String,
    pub listeners: Vec<String>,
}

/// The closed variant over all node contents.
pub enum NodeType {
    Element(ElementNode),
    Text(TextNode),
    Placeholder,
}

/// The views of the strings in a list, as a sequence.
pub open spec fn str_seq(v: Seq<String>) -> Seq<Seq<char>> {
    v.map_values(|s: String| s@)
}

/// The views of the strings in a list, as a set.
pub open spec fn str_set(v: Seq<String>) -> Set<Seq<char>> {
    Set::new(|x: Seq<char>| exists|i: int| 0 <= i < v.len() && v[i]@ == x)
}

/// No two strings of the list have the same characters.
pub open spec fn strs_unique(v: Seq<String>) -> bool {
    forall|i: int, j: int| 0 <= i < j < v.len() ==> v[i]@ != v[j]@
}

/// The view of an attribute key: name characters and namespace characters.
pub open spec fn attr_key_view(k: AttributeKey) -> (Seq<char>, Option<Seq<char>>) {
    (
        k.name@,
        match k.namespace {
            Some(ns) => Some(ns@),
            None => None,
        },
    )
}

/// No two entries of an attribute list share a key.
pub open spec fn attr_keys_unique(attrs: Seq<(AttributeKey, AttributeValue)>) -> bool {
    forall|i: int, j: int|
        0 <= i < j < attrs.len() ==> attr_key_view(attrs[i].0) != attr_key_view(attrs[j].0)
}

/// The mapping an attribute list stands for.
pub open spec fn attrs_map(attrs: Seq<(AttributeKey, AttributeValue)>) -> Map<
    (Seq<char>, Option<Seq<char>>),
    AttributeValue,
> {
    Map::new(
        |k: (Seq<char>, Option<Seq<char>>)|
            exists|i: int| 0 <= i < attrs.len() && attr_key_view(#[trigger] attrs[i].0) == k,
        |k: (Seq<char>, Option<Seq<char>>)|
            attrs[choose|i: int|
                0 <= i < attrs.len() && attr_key_view(#[trigger] attrs[i].0) == k].1,
    )
}

/// The event names a node listens for.
pub open spec fn listeners_of(nt: NodeType) -> Set<Seq<char>> {
    match nt {
        NodeType::Element(e) => str_set(e.listeners@),
        NodeType::Text(t) => str_set(t.listeners@),
        NodeType::Placeholder => Set::empty(),
    }
}

/// Placeholders carry no listener set.
pub open spec fn can_listen(nt: NodeType) -> bool {
    !(nt is Placeholder)
}

/// Internal consistency of one node's content: listener lists and attribute
/// lists hold no duplicates.
pub open spec fn content_wf(nt: NodeType) -> bool {
    match nt {
        NodeType::Element(e) => strs_unique(e.listeners@) && attr_keys_unique(e.attributes@),
        NodeType::Text(t) => strs_unique(t.listeners@),
        NodeType::Placeholder => true,
    }
}

/// Content equality as far as it is observable: same variant, same
/// characters, same attribute entries, same listener names.
pub open spec fn content_matches(a: NodeType, b: NodeType) -> bool {
    match (a, b) {
        (NodeType::Element(x), NodeType::Element(y)) => {
            &&& x.tag@ == y.tag@
            &&& (match (x.namespace, y.namespace) {
                (Some(n1), Some(n2)) => n1@ == n2@,
                (None, None) => true,
                _ => false,
            })
            &&& x.attributes@ == y.attributes@
            &&& x.listeners@ == y.listeners@
        },
        (NodeType::Text(x), NodeType::Text(y)) => x.text@ == y.text@ && x.listeners@
            == y.listeners@,
        (NodeType::Placeholder, NodeType::Placeholder) => true,
        _ => false,
    }
}

/// Under unique keys, the mapping reads each entry off the list.
pub proof fn lemma_attrs_map_entry(attrs: Seq<(AttributeKey, AttributeValue)>, i: int)
    requires
        attr_keys_unique(attrs),
        0 <= i < attrs.len(),
    ensures
        attrs_map(attrs).dom().contains(attr_key_view(attrs[i].0)),
        attrs_map(attrs)[attr_key_view(attrs[i].0)] == attrs[i].1,
{
    let k = attr_key_view(attrs[i].0);
    let j = choose|j: int| 0 <= j < attrs.len() && attr_key_view(#[trigger] attrs[j].0) == k;
    assert(j == i);
}

/// A key no entry carries is not in the mapping.
pub proof fn lemma_attr_absent(attrs: Seq<(AttributeKey, AttributeValue)>, kv: (
    Seq<char>,
    Option<Seq<char>>,
))
    requires
        forall|i: int| 0 <= i < attrs.len() ==> attr_key_view(#[trigger] attrs[i].0) != kv,
    ensures
        !attrs_map(attrs).dom().contains(kv),
{
    if attrs_map(attrs).dom().contains(kv) {
        let i = choose|i: int| 0 <= i < attrs.len() && attr_key_view(#[trigger] attrs[i].0) == kv;
    }
}

/// Appending an entry under a fresh key inserts it into the mapping.
pub proof fn lemma_attr_push(
    pre: Seq<(AttributeKey, AttributeValue)>,
    post: Seq<(AttributeKey, AttributeValue)>,
    kv: (Seq<char>, Option<Seq<char>>),
)
    requires
        attr_keys_unique(pre),
        forall|i: int| 0 <= i < pre.len() ==> attr_key_view(#[trigger] pre[i].0) != kv,
        post.len() == pre.len() + 1,
        forall|i: int| 0 <= i < pre.len() ==> post[i] == pre[i],
        attr_key_view(post[post.len() - 1].0) == kv,
    ensures
        attr_keys_unique(post),
        !attrs_map(pre).dom().contains(kv),
        attrs_map(post) == attrs_map(pre).insert(kv, post[post.len() - 1].1),
{
    lemma_attr_absent(pre, kv);
    assert(attr_keys_unique(post)) by {
        assert forall|i: int, j: int|
            0 <= i < j < post.len() implies attr_key_view(post[i].0) != attr_key_view(
            post[j].0,
        ) by {
            if j < post.len() - 1 {
                assert(post[i] == pre[i] && post[j] == pre[j]);
            } else {
                assert(post[i] == pre[i]);
            }
        }
    }
    assert_maps_equal!(attrs_map(post), attrs_map(pre).insert(kv, post[post.len() - 1].1), k2 => {
        if k2 == kv {
            lemma_attrs_map_entry(post, post.len() - 1);
        } else {
            if attrs_map(pre).dom().contains(k2) {
                let i = choose|i: int|
                    0 <= i < pre.len() && attr_key_view(#[trigger] pre[i].0) == k2;
                lemma_attrs_map_entry(pre, i);
                lemma_attrs_map_entry(post, i);
            }
            if attrs_map(post).dom().contains(k2) {
                let i = choose|i: int|
                    0 <= i < post.len() && attr_key_view(#[trigger] post[i].0) == k2;
                assert(i < pre.len());
                lemma_attrs_map_entry(pre, i);
                lemma_attrs_map_entry(post, i);
            }
        }
    });
}

/// Replacing the entry under a key updates the mapping at that key.
pub proof fn lemma_attr_set(
    pre: Seq<(AttributeKey, AttributeValue)>,
    post: Seq<(AttributeKey, AttributeValue)>,
    kv: (Seq<char>, Option<Seq<char>>),
    i: int,
)
    requires
        attr_keys_unique(pre),
        0 <= i < pre.len(),
        attr_key_view(pre[i].0) == kv,
        post.len() == pre.len(),
        forall|j: int| 0 <= j < pre.len() - 1 ==> post[j] == pre.remove(i)[j],
        attr_key_view(post[post.len() - 1].0) == kv,
    ensures
        attr_keys_unique(post),
        attrs_map(pre).dom().contains(kv),
        attrs_map(pre)[kv] == pre[i].1,
        attrs_map(post) == attrs_map(pre).insert(kv, post[post.len() - 1].1),
{
    lemma_attrs_map_entry(pre, i);
    let mid = pre.remove(i);
    assert(attr_keys_unique(mid)) by {
        assert forall|a: int, b: int|
            0 <= a < b < mid.len() implies attr_key_view(mid[a].0) != attr_key_view(mid[b].0) by {
            let sa = if a < i {
                a
            } else {
                a + 1
            };
            let sb = if b < i {
                b
            } else {
                b + 1
            };
            assert(mid[a] == pre[sa] && mid[b] == pre[sb]);
        }
    }
    assert forall|j: int| 0 <= j < mid.len() implies attr_key_view(#[trigger] mid[j].0) != kv by {
        let sj = if j < i {
            j
        } else {
            j + 1
        };
        assert(mid[j] == pre[sj]);
    }
    lemma_attr_push(mid, post, kv);
    assert_maps_equal!(attrs_map(mid), attrs_map(pre).remove(kv), k2 => {
        if k2 != kv {
            if attrs_map(pre).dom().contains(k2) {
                let a = choose|a: int|
                    0 <= a < pre.len() && attr_key_view(#[trigger] pre[a].0) == k2;
                lemma_attrs_map_entry(pre, a);
                let ma = if a < i {
                    a
                } else {
                    a - 1
                };
                assert(a != i);
                assert(mid[ma] == pre[a]);
                lemma_attrs_map_entry(mid, ma);
            }
            if attrs_map(mid).dom().contains(k2) {
                let a = choose|a: int|
                    0 <= a < mid.len() && attr_key_view(#[trigger] mid[a].0) == k2;
                lemma_attrs_map_entry(mid, a);
                let pa = if a < i {
                    a
                } else {
                    a + 1
                };
                assert(mid[a] == pre[pa]);
                lemma_attrs_map_entry(pre, pa);
            }
        } else {
            lemma_attr_absent(mid, kv);
        }
    });
    assert(attrs_map(pre).remove(kv).insert(kv, post[post.len() - 1].1) =~= attrs_map(
        pre,
    ).insert(kv, post[post.len() - 1].1));
}

/// Dropping the entry under a key removes it from the mapping.
pub proof fn lemma_attr_remove(
    pre: Seq<(AttributeKey, AttributeValue)>,
    post: Seq<(AttributeKey, AttributeValue)>,
    kv: (Seq<char>, Option<Seq<char>>),
    i: int,
)
    requires
        attr_keys_unique(pre),
        0 <= i < pre.len(),
        attr_key_view(pre[i].0) == kv,
        post == pre.remove(i),
    ensures
        attr_keys_unique(post),
        attrs_map(pre).dom().contains(kv),
        attrs_map(pre)[kv] == pre[i].1,
        attrs_map(post) == attrs_map(pre).remove(kv),
{
    lemma_attrs_map_entry(pre, i);
    assert(attr_keys_unique(post)) by {
        assert forall|a: int, b: int|
            0 <= a < b < post.len() implies attr_key_view(post[a].0) != attr_key_view(
            post[b].0,
        ) by {
            let sa = if a < i {
                a
            } else {
                a + 1
            };
            let sb = if b < i {
                b
            } else {
                b + 1
            };
            assert(post[a] == pre[sa] && post[b] == pre[sb]);
        }
    }
    assert_maps_equal!(attrs_map(post), attrs_map(pre).remove(kv), k2 => {
        if k2 != kv {
            if attrs_map(pre).dom().contains(k2) {
                let a = choose|a: int|
                    0 <= a < pre.len() && attr_key_view(#[trigger] pre[a].0) == k2;
                lemma_attrs_map_entry(pre, a);
                let ma = if a < i {
                    a
                } else {
                    a - 1
                };
                assert(a != i);
                assert(post[ma] == pre[a]);
                lemma_attrs_map_entry(post, ma);
            }
            if attrs_map(post).dom().contains(k2) {
                let a = choose|a: int|
                    0 <= a < post.len() && attr_key_view(#[trigger] post[a].0) == k2;
                lemma_attrs_map_entry(post, a);
                let pa = if a < i {
                    a
                } else {
                    a + 1
                };
                assert(post[a] == pre[pa]);
                lemma_attrs_map_entry(pre, pa);
            }
        } else {
            assert forall|j: int|
                0 <= j < post.len() implies attr_key_view(#[trigger] post[j].0) != kv by {
                let sj = if j < i {
                    j
                } else {
                    j + 1
                };
                assert(post[j] == pre[sj]);
            }
            lemma_attr_absent(post, kv);
        }
    });
}

/// Extending a prefix by one string extends its name set by that name.
pub proof fn lemma_str_set_snoc(v: Seq<String>, u: int)
    requires
        0 <= u < v.len(),
    ensures
        str_set(v.subrange(0, u + 1)) == str_set(v.subrange(0, u)).insert(v[u]@),
{
    assert forall|x: Seq<char>| str_set(v.subrange(0, u + 1)).contains(x) implies str_set(
        v.subrange(0, u),
    ).insert(v[u]@).contains(x) by {
        let w = choose|w: int|
            0 <= w < v.subrange(0, u + 1).len() && #[trigger] v.subrange(0, u + 1)[w]@ == x;
        if w < u {
            assert(v.subrange(0, u)[w]@ == x);
        }
    }
    assert forall|x: Seq<char>| str_set(v.subrange(0, u)).insert(v[u]@).contains(x) implies
        str_set(v.subrange(0, u + 1)).contains(x) by {
        if str_set(v.subrange(0, u)).contains(x) {
            let w = choose|w: int|
                0 <= w < v.subrange(0, u).len() && #[trigger] v.subrange(0, u)[w]@ == x;
            assert(v.subrange(0, u + 1)[w]@ == x);
        } else {
            assert(v.subrange(0, u + 1)[u]@ == x);
        }
    }
    assert(str_set(v.subrange(0, u + 1)) =~= str_set(v.subrange(0, u)).insert(v[u]@));
}

/// Whether some string of the list has exactly the characters of `s`.
pub fn contains_string(v: &Vec<String>, s: &String) -> (r: bool)
    ensures
        r == str_set(v@).contains(s@),
{
    let mut i: usize = 0;
    while i < v.len()
        invariant
            i <= v@.len(),
            forall|j: int| 0 <= j < i ==> v@[j]@ != s@,
        decreases v@.len() - i,
    {
        if v[i] == *s {
            return true;
        }
        i += 1;
    }
    false
}

/// Add a string to a duplicate-free list, keeping it duplicate-free.
pub fn insert_string_unique(v: &mut Vec<String>, s: String)
    requires
        strs_unique(old(v)@),
    ensures
        strs_unique(final(v)@),
        str_set(final(v)@) == str_set(old(v)@).insert(s@),
{
    let ghost sv: Seq<char> = s@;
    let present = contains_string(v, &s);
    if !present {
        v.push(s);
    }
    proof {
        assert forall|x: Seq<char>| str_set(old(v)@).insert(sv).contains(x) implies str_set(
            v@,
        ).contains(x) by {
            if str_set(old(v)@).contains(x) {
                let i = choose|i: int| 0 <= i < old(v)@.len() && old(v)@[i]@ == x;
                assert(v@[i]@ == x);
            } else {
                if present {
                    let i = choose|i: int| 0 <= i < old(v)@.len() && old(v)@[i]@ == sv;
                    assert(v@[i]@ == x);
                } else {
                    assert(v@[v@.len() - 1]@ == x);
                }
            }
        }
        assert forall|x: Seq<char>| str_set(v@).contains(x) implies str_set(old(v)@).insert(
            sv,
        ).contains(x) by {
            let i = choose|i: int| 0 <= i < v@.len() && v@[i]@ == x;
            if i < old(v)@.len() {
                assert(old(v)@[i]@ == x);
            }
        }
        assert(str_set(v@) =~= str_set(old(v)@).insert(sv));
    }
}

/// Remove the string with the characters of `s` from a duplicate-free list.
pub fn remove_string(v: &mut Vec<String>, s: &String)
    requires
        strs_unique(old(v)@),
    ensures
        strs_unique(final(v)@),
        str_set(final(v)@) == str_set(old(v)@).remove(s@),
{
    let mut i: usize = 0;
    while i < v.len()
        invariant
            i <= v@.len(),
            strs_unique(v@),
            v@ == old(v)@,
            forall|j: int| 0 <= j < i ==> v@[j]@ != s@,
        decreases v@.len() - i,
    {
        if v[i] == *s {
            v.remove(i);
            proof {
                let ghost pre = old(v)@;
                assert forall|x: Seq<char>| str_set(v@).contains(x) implies str_set(pre).remove(
                    s@,
                ).contains(x) by {
                    let j = choose|j: int| 0 <= j < v@.len() && v@[j]@ == x;
                    if j < i {
                        assert(pre[j]@ == x);
                    } else {
                        assert(pre[j + 1]@ == x);
                    }
                }
                assert forall|x: Seq<char>| str_set(pre).remove(s@).contains(x) implies str_set(
                    v@,
                ).contains(x) by {
                    let j = choose|j: int| 0 <= j < pre.len() && pre[j]@ == x;
                    if j < i {
                        assert(v@[j]@ == x);
                    } else {
                        assert(j != i);
                        assert(v@[j - 1]@ == x);
                    }
                }
                assert(str_set(v@) =~= str_set(old(v)@).remove(s@));
            }
            return;
        }
        i += 1;
    }
    proof {
        assert forall|x: Seq<char>| str_set(v@).contains(x) implies str_set(old(v)@).remove(
            s@,
        ).contains(x) by {
            let j = choose|j: int| 0 <= j < v@.len() && v@[j]@ == x;
            assert(v@[j]@ != s@);
        }
        assert(str_set(v@) =~= str_set(old(v)@).remove(s@));
    }
}

/// Copy a list of strings, character for character.
pub fn clone_strings(v: &Vec<String>) -> (r: Vec<String>)
    ensures
        r@ == v@,
{
    let mut r: Vec<String> = Vec::new();
    let mut i: usize = 0;
    while i < v.len()
        invariant
            i <= v@.len(),
            r@ == v@.subrange(0, i as int),
        decreases v@.len() - i,
    {
        r.push(v[i].clone());
        i += 1;
    }
    proof {
        assert(r@ =~= v@);
    }
    r
}

/// Whether two optional strings have the same characters.
pub fn opt_string_eq(a: &Option<String>, b: &Option<String>) -> (r: bool)
    ensures
        r == (match (a, b) {
            (Some(x), Some(y)) => x@ == y@,
            (None, None) => true,
            _ => false,
        }),
{
    match (a, b) {
        (Some(x), Some(y)) => *x == *y,
        (None, None) => true,
        _ => false,
    }
}

/// Copy an optional string.
pub fn clone_opt_string(v: &Option<String>) -> (r: Option<String>)
    ensures
        r == *v,
{
    match v {
        Some(s) => Some(s.clone()),
        None => None,
    }
}

/// Copy an attribute key.
pub fn clone_attr_key(k: &AttributeKey) -> (r: AttributeKey)
    ensures
        r == *k,
{
    AttributeKey { name: k.name.clone(), namespace: clone_opt_string(&k.namespace) }
}

/// Copy an attribute value.
pub fn clone_attr_value(v: &AttributeValue) -> (r: AttributeValue)
    ensures
        r == *v,
{
    match v {
        AttributeValue::Text(s) => AttributeValue::Text(s.clone()),
        AttributeValue::Int(i) => AttributeValue::Int(*i),
        AttributeValue::Bool(b) => AttributeValue::Bool(*b),
    }
}

/// Copy an attribute list.
pub fn clone_attrs(v: &Vec<(AttributeKey, AttributeValue)>) -> (r: Vec<
    (AttributeKey, AttributeValue),
>)
    ensures
        r@ == v@,
{
    let mut r: Vec<(AttributeKey, AttributeValue)> = Vec::new();
    let mut i: usize = 0;
    while i < v.len()
        invariant
            i <= v@.len(),
            r@ == v@.subrange(0, i as int),
        decreases v@.len() - i,
    {
        r.push((clone_attr_key(&v[i].0), clone_attr_value(&v[i].1)));
        i += 1;
    }
    proof {
        assert(r@ =~= v@);
    }
    r
}

/// Copy a node's whole content.
pub fn clone_content(nt: &NodeType) -> (r: NodeType)
    ensures
        content_matches(r, *nt),
{
    match nt {
        NodeType::Element(e) => NodeType::Element(
            ElementNode {
                tag: e.tag.clone(),
                namespace: clone_opt_string(&e.namespace),
                attributes: clone_attrs(&e.attributes),
                listeners: clone_strings(&e.listeners),
            },
        ),
        NodeType::Text(t) => NodeType::Text(
            TextNode { text: t.text.clone(), listeners: clone_strings(&t.listeners) },
        ),
        NodeType::Placeholder => NodeType::Placeholder,
    }
}

/// The index of the attribute entry with this key, if one is there.
pub fn find_attr(attrs: &Vec<(AttributeKey, AttributeValue)>, key: &AttributeKey) -> (r: Option<
    usize,
>)
    ensures
        match r {
            Some(i) => i < attrs@.len() && attr_key_view(attrs@[i as int].0) == attr_key_view(
                *key,
            ),
            None => forall|i: int|
                0 <= i < attrs@.len() ==> attr_key_view(#[trigger] attrs@[i].0) != attr_key_view(
                    *key,
                ),
        },
{
    let mut i: usize = 0;
    while i < attrs.len()
        invariant
            i <= attrs@.len(),
            forall|j: int|
                0 <= j < i ==> attr_key_view(#[trigger] attrs@[j].0) != attr_key_view(*key),
        decreases attrs@.len() - i,
    {
        if attrs[i].0.name == key.name && opt_string_eq(&attrs[i].0.namespace, &key.namespace) {
            return Some(i);
        }
        i += 1;
    }
    None
}

} // verus!
