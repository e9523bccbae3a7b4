use native_core::node::{AttributeKey, AttributeValue, ElementNode, NodeType, TextNode};
use native_core::node_ref::{AttributeMask, NodeMask};
use native_core::passes::{resolve_dependants, PassDescriptor};
use native_core::real_dom::{RealDom, WatchEvent, WorkItem};
use native_core::HeightOrdering;

fn pass(id: u64, mask: NodeMask, parent_dep: bool, child_dep: bool, deps: Vec<u64>) -> PassDescriptor {
    PassDescriptor {
        id,
        mask,
        parent_dependant: parent_dep,
        child_dependant: child_dep,
        dependencies: deps,
        dependants: Vec::new(),
    }
}

fn element(tag: &str) -> NodeType {
    NodeType::Element(ElementNode {
        tag: tag.to_string(),
        namespace: None,
        attributes: Vec::new(),
        listeners: Vec::new(),
    })
}

fn text(s: &str) -> NodeType {
    NodeType::Text(TextNode { text: s.to_string(), listeners: Vec::new() })
}

fn attr_mask(name: &str) -> NodeMask {
    NodeMask::new_attr(name.to_string())
}

fn key(name: &str) -> AttributeKey {
    AttributeKey { name: name.to_string(), namespace: None }
}

fn work_contains(work: &[WorkItem], pass: u64, node: usize) -> bool {
    work.iter().any(|w| w.pass == pass && w.node == node)
}

#[test]
fn height_ordering_new_keeps_fields() {
    let h = HeightOrdering::new(3, 17);
    assert_eq!(h.height, 3);
    assert_eq!(h.id, 17);
}

#[test]
fn registry_inversion_direct_dependants() {
    // Pass 2 reads pass 1; pass 3 reads pass 1 and a pass that is not
    // registered, which is silently ignored.
    let mut passes = vec![
        pass(1, NodeMask::new_empty(), false, false, vec![]),
        pass(2, NodeMask::new_empty(), false, false, vec![1]),
        pass(3, NodeMask::new_empty(), false, false, vec![1, 99]),
    ];
    resolve_dependants(&mut passes);
    assert_eq!(passes[0].dependants.len(), 2);
    assert!(passes[0].dependants.contains(&2));
    assert!(passes[0].dependants.contains(&3));
    assert!(passes[1].dependants.is_empty());
    assert!(passes[2].dependants.is_empty());
}

#[test]
fn creation_marks_every_registered_pass() {
    // After creation, a node's pending pass set equals the full
    // registered pass set.
    let passes = vec![
        pass(1, attr_mask("width"), false, false, vec![]),
        pass(2, NodeMask::new_text(), true, false, vec![]),
        pass(3, NodeMask::new_listeners(), false, true, vec![]),
    ];
    let mut dom = RealDom::new(passes);
    let e = dom.create_node(element("div"));
    let (work, _masks) = dom.update_state();
    for p in [1u64, 2, 3] {
        assert!(work_contains(&work, p, e));
    }
    let for_e: Vec<&WorkItem> = work.iter().filter(|w| w.node == e).collect();
    assert_eq!(for_e.len(), 3);
}

#[test]
fn scenario_attach_and_attribute_marks() {
    // Create root; create an element; attach it under the root; set an
    // attribute. The element is pending for the attribute-interested and
    // parent-dependant passes, the root for every child-dependant pass.
    let passes = vec![
        pass(1, attr_mask("width"), false, false, vec![]),
        pass(2, NodeMask::new_empty(), true, false, vec![]),
        pass(3, NodeMask::new_empty(), false, true, vec![]),
    ];
    let mut dom = RealDom::new(passes);
    // Drain the construction marks so only the edits below remain.
    let _ = dom.update_state();
    let e = dom.create_node(element("div"));
    assert!(dom.add_child(0, e));
    let old = dom.set_attribute(e, key("width"), AttributeValue::Int(10));
    assert!(old.is_none());
    let (work, masks) = dom.update_state();
    assert!(work_contains(&work, 1, e), "attribute-interested pass runs on the element");
    assert!(work_contains(&work, 2, e), "parent-dependant pass runs on the attached child");
    assert!(work_contains(&work, 3, 0), "child-dependant pass runs on the root");
    assert!(!work_contains(&work, 1, 0), "the root saw no attribute change");
    // The pre-drain changed mask of the element covers the width attribute.
    let em = masks.iter().find(|(n, _)| *n == e).expect("mask for the element");
    assert!(em.1.overlaps(&attr_mask("width")));
    assert!(!em.1.overlaps(&attr_mask("height")));
}

#[test]
fn mask_union_is_order_independent() {
    // Applying mask m1 then m2 yields the same pending mask as m2 then
    // m1, equal to their union.
    let passes = vec![pass(1, NodeMask::new_all(), false, false, vec![])];
    let mut dom_a = RealDom::new(passes);
    let _ = dom_a.update_state();
    let a = dom_a.create_node(element("div"));
    dom_a.set_attribute(a, key("x"), AttributeValue::Bool(true));
    dom_a.set_tag(a, "span".to_string());
    let (_, masks_a) = dom_a.update_state();

    let passes = vec![pass(1, NodeMask::new_all(), false, false, vec![])];
    let mut dom_b = RealDom::new(passes);
    let _ = dom_b.update_state();
    let b = dom_b.create_node(element("div"));
    dom_b.set_tag(b, "span".to_string());
    dom_b.set_attribute(b, key("x"), AttributeValue::Bool(true));
    let (_, masks_b) = dom_b.update_state();

    let ma = &masks_a.iter().find(|(n, _)| *n == a).unwrap().1;
    let mb = &masks_b.iter().find(|(n, _)| *n == b).unwrap().1;
    assert_eq!(ma.tag, mb.tag);
    assert_eq!(ma.namespace, mb.namespace);
    assert_eq!(ma.text, mb.text);
    assert_eq!(ma.listeners, mb.listeners);
    assert!(ma.tag);
    assert!(ma.overlaps(&attr_mask("x")) && mb.overlaps(&attr_mask("x")));
    assert!(!ma.overlaps(&attr_mask("y")) && !mb.overlaps(&attr_mask("y")));
}

#[test]
fn mask_overlap_rules() {
    let all = AttributeMask::All;
    let none = AttributeMask::Listed(Vec::new());
    let m_all = NodeMask { attrs: all, tag: false, namespace: false, text: false, listeners: false };
    let m_none = NodeMask { attrs: none, tag: false, namespace: false, text: false, listeners: false };
    assert!(!m_all.overlaps(&m_none), "all attributes do not overlap an empty list");
    assert!(m_all.overlaps(&attr_mask("a")));
    assert!(attr_mask("a").overlaps(&attr_mask("a")));
    assert!(!attr_mask("a").overlaps(&attr_mask("b")));
    let u = attr_mask("a").union(&attr_mask("b"));
    assert!(u.overlaps(&attr_mask("a")) && u.overlaps(&attr_mask("b")));
    let lu = NodeMask::new_listeners().union(&NodeMask::new_text());
    assert!(lu.listeners && lu.text && !lu.tag);
}

#[test]
fn two_cycles_without_edits_second_is_empty() {
    let passes = vec![pass(1, NodeMask::new_all(), true, true, vec![])];
    let mut dom = RealDom::new(passes);
    let e = dom.create_node(element("div"));
    dom.add_child(0, e);
    let (work, masks) = dom.update_state();
    assert!(!work.is_empty() && !masks.is_empty());
    let (work2, masks2) = dom.update_state();
    assert!(work2.is_empty(), "no intervening edit: empty work set");
    assert!(masks2.is_empty(), "no intervening edit: empty mask set");
}

#[test]
fn structure_stays_a_tree() {
    let mut dom = RealDom::new(Vec::new());
    let a = dom.create_node(element("a"));
    let b = dom.create_node(element("b"));
    let c = dom.create_node(element("c"));
    assert!(dom.add_child(0, a));
    assert!(dom.add_child(a, b));
    assert!(dom.add_child(b, c));
    // A cycle is refused and nothing changes.
    assert!(!dom.add_child(c, a));
    assert!(!dom.add_child(a, a));
    assert!(!dom.add_child(b, 0), "the root can gain no parent");
    assert_eq!(dom.parent_id(a), Some(0));
    assert_eq!(dom.parent_id(b), Some(a));
    assert_eq!(dom.parent_id(c), Some(b));
    assert_eq!(dom.height(c), Some(3));
    // Reparenting moves the whole subtree and re-homes heights.
    assert!(dom.add_child(0, b));
    assert_eq!(dom.parent_id(b), Some(0));
    assert_eq!(dom.height(b), Some(1));
    assert_eq!(dom.height(c), Some(2));
    assert_eq!(dom.child_ids(a).unwrap(), Vec::<usize>::new());
    assert_eq!(dom.child_ids(0).unwrap(), vec![a, b]);
}

#[test]
fn sibling_insertion_orders_children() {
    let mut dom = RealDom::new(Vec::new());
    let a = dom.create_node(element("a"));
    let b = dom.create_node(element("b"));
    let c = dom.create_node(element("c"));
    assert!(dom.add_child(0, a));
    assert!(dom.insert_after(b, a));
    assert!(dom.insert_before(c, a));
    assert_eq!(dom.child_ids(0).unwrap(), vec![c, a, b]);
    assert!(!dom.insert_before(b, 999), "a dead anchor changes nothing");
}

#[test]
fn removal_purges_descendant_listeners() {
    // After removing a subtree, the listener index has no entries for any
    // node of it, even for listeners registered on descendants.
    let mut dom = RealDom::new(Vec::new());
    let a = dom.create_node(element("a"));
    let b = dom.create_node(element("b"));
    let c = dom.create_node(text("hi"));
    dom.add_child(0, a);
    dom.add_child(a, b);
    dom.add_child(b, c);
    dom.add_event_listener(b, "click");
    dom.add_event_listener(c, "click");
    dom.add_event_listener(a, "scroll");
    assert_eq!(dom.get_listening_sorted("click"), vec![c, b]);
    dom.remove(a);
    assert!(dom.get_listening_sorted("click").is_empty());
    assert!(dom.get_listening_sorted("scroll").is_empty());
    assert!(dom.get(a).is_none());
    assert!(dom.get(b).is_none());
    assert!(dom.get(c).is_none());
    assert_eq!(dom.size(), 0);
}

#[test]
fn listening_query_sorted_by_height() {
    // Results come deepest first; same-height nodes both appear, in a
    // deterministic order.
    let mut dom = RealDom::new(Vec::new());
    let a = dom.create_node(element("a"));
    let b = dom.create_node(element("b"));
    let c = dom.create_node(element("c"));
    let d = dom.create_node(element("d"));
    dom.add_child(0, a);
    dom.add_child(a, b);
    dom.add_child(a, c);
    dom.add_child(b, d);
    for id in [a, b, c, d] {
        dom.add_event_listener(id, "click");
    }
    let r = dom.get_listening_sorted("click");
    assert_eq!(r.len(), 4);
    assert_eq!(r[0], d);
    assert_eq!(r[3], a);
    // b and c share a height; both appear, identity order.
    assert_eq!(&r[1..3], &[b, c]);
    let heights: Vec<u16> = r.iter().map(|id| dom.height(*id).unwrap()).collect();
    for w in heights.windows(2) {
        assert!(w[0] >= w[1]);
    }
}

#[test]
fn listener_register_and_remove() {
    // Register a listener for "click" on a node: the query includes it;
    // remove the node: the query no longer includes it.
    let mut dom = RealDom::new(Vec::new());
    let n = dom.create_node(element("button"));
    dom.add_child(0, n);
    dom.add_event_listener(n, "click");
    assert!(dom.get_listening_sorted("click").contains(&n));
    dom.remove(n);
    assert!(!dom.get_listening_sorted("click").contains(&n));
}

#[test]
fn remove_event_listener_updates_index() {
    let mut dom = RealDom::new(Vec::new());
    let n = dom.create_node(element("button"));
    dom.add_child(0, n);
    dom.add_event_listener(n, "click");
    dom.add_event_listener(n, "scroll");
    dom.remove_event_listener(n, "click");
    assert!(!dom.get_listening_sorted("click").contains(&n));
    assert!(dom.get_listening_sorted("scroll").contains(&n));
}

#[test]
fn created_then_removed_entries_are_dropped_at_drain() {
    // A pending entry for a node created and removed in the same batch is
    // silently skipped, not surfaced.
    let passes = vec![pass(1, NodeMask::new_all(), false, false, vec![])];
    let mut dom = RealDom::new(passes);
    let _ = dom.update_state();
    let e = dom.create_node(element("div"));
    dom.add_child(0, e);
    dom.remove(e);
    let (work, _masks) = dom.update_state();
    assert!(!work_contains(&work, 1, e));
}

#[test]
fn drain_reads_heights_at_drain_time() {
    // The height in a work item is the node's height when the cycle is
    // drained, not when it was marked.
    let passes = vec![pass(1, NodeMask::new_all(), false, false, vec![])];
    let mut dom = RealDom::new(passes);
    let _ = dom.update_state();
    let a = dom.create_node(element("a"));
    let b = dom.create_node(element("b"));
    dom.add_child(0, a);
    dom.add_child(0, b);
    // Mark b while it sits at height 1, then deepen it.
    dom.set_tag(b, "c".to_string());
    dom.add_child(a, b);
    let (work, _) = dom.update_state();
    let wb = work.iter().find(|w| w.node == b && w.pass == 1).unwrap();
    assert_eq!(wb.height, 2);
    // Work items come in ascending height order.
    for w in work.windows(2) {
        assert!(w[0].height <= w[1].height);
    }
}

#[test]
fn attribute_round_trip() {
    let mut dom = RealDom::new(Vec::new());
    let e = dom.create_node(element("div"));
    assert!(dom.set_attribute(e, key("w"), AttributeValue::Int(4)).is_none());
    let old = dom.set_attribute(e, key("w"), AttributeValue::Int(9));
    assert!(matches!(old, Some(AttributeValue::Int(4))));
    let gone = dom.remove_attributes(e, &key("w"));
    assert!(matches!(gone, Some(AttributeValue::Int(9))));
    assert!(dom.remove_attributes(e, &key("w")).is_none());
    assert!(dom.set_attribute(999, key("w"), AttributeValue::Int(1)).is_none());
}

#[test]
fn content_edits_on_wrong_variant_are_refused() {
    let mut dom = RealDom::new(Vec::new());
    let t = dom.create_node(text("hi"));
    dom.set_tag(t, "div".to_string());
    match dom.get(t).unwrap() {
        NodeType::Text(tx) => assert_eq!(tx.text, "hi"),
        _ => panic!("still a text node"),
    }
    dom.set_text(t, "bye".to_string());
    match dom.get(t).unwrap() {
        NodeType::Text(tx) => assert_eq!(tx.text, "bye"),
        _ => panic!("still a text node"),
    }
}

#[test]
fn watch_events_fire_in_order() {
    let mut dom = RealDom::new(Vec::new());
    let a = dom.create_node(element("a"));
    dom.add_child(0, a);
    let b = dom.create_node(element("b"));
    dom.add_child(a, b);
    dom.remove(a);
    let events = dom.take_watch_events();
    let expect = [
        WatchEvent::Added(a),
        WatchEvent::Moved(a),
        WatchEvent::Added(b),
        WatchEvent::Moved(b),
        WatchEvent::Removed(a),
        WatchEvent::Removed(b),
    ];
    assert_eq!(events.len(), expect.len());
    for (got, want) in events.iter().zip(expect.iter()) {
        let same = match (got, want) {
            (WatchEvent::Added(x), WatchEvent::Added(y)) => x == y,
            (WatchEvent::Removed(x), WatchEvent::Removed(y)) => x == y,
            (WatchEvent::Moved(x), WatchEvent::Moved(y)) => x == y,
            _ => false,
        };
        assert!(same);
    }
    assert!(dom.take_watch_events().is_empty());
}

#[test]
fn traversals_cover_the_attached_tree() {
    let mut dom = RealDom::new(Vec::new());
    let a = dom.create_node(element("a"));
    let b = dom.create_node(element("b"));
    let c = dom.create_node(element("c"));
    let loose = dom.create_node(element("loose"));
    dom.add_child(0, a);
    dom.add_child(a, b);
    dom.add_child(0, c);
    let dfs = dom.traverse_depth_first();
    assert_eq!(dfs[0], 0);
    assert_eq!(dfs.len(), 4);
    assert!(!dfs.contains(&loose), "detached nodes are not traversed");
    let pos = |x: usize| dfs.iter().position(|v| *v == x).unwrap();
    assert!(pos(a) < pos(b));
    let bfs = dom.traverse_breadth_first();
    assert_eq!(bfs, vec![0, a, c, b]);
}

#[test]
fn replace_swaps_subtrees() {
    let passes = vec![
        pass(1, NodeMask::new_empty(), true, false, vec![]),
        pass(2, NodeMask::new_empty(), false, true, vec![]),
    ];
    let mut dom = RealDom::new(passes);
    let _ = dom.update_state();
    let a = dom.create_node(element("a"));
    let b = dom.create_node(element("b"));
    let c = dom.create_node(element("c"));
    let fresh = dom.create_node(element("fresh"));
    dom.add_child(0, a);
    dom.add_child(0, c);
    dom.add_child(a, b);
    dom.add_event_listener(b, "click");
    let _ = dom.update_state();
    let _ = dom.take_watch_events();
    // Swap the fresh node into a's place: a and b go away, in order.
    assert!(dom.replace(a, fresh));
    assert!(dom.get(a).is_none());
    assert!(dom.get(b).is_none());
    assert_eq!(dom.parent_id(fresh), Some(0));
    assert_eq!(dom.child_ids(0).unwrap(), vec![fresh, c], "the old position is kept");
    assert_eq!(dom.height(fresh), Some(1));
    assert!(dom.get_listening_sorted("click").is_empty(), "descendant listeners purged");
    let events = dom.take_watch_events();
    assert!(matches!(events[0], WatchEvent::Removed(n) if n == a));
    assert_eq!(events.len(), 2);
    let (work, _) = dom.update_state();
    assert!(work_contains(&work, 2, 0), "old parent gets the child-dependant mark");
    assert!(work_contains(&work, 1, fresh), "the new node gets the parent-dependant mark");
    // Inadmissible swaps change nothing.
    assert!(!dom.replace(fresh, fresh));
    assert!(!dom.replace(0, c));
    assert!(!dom.replace(c, 999));
}

#[test]
fn traversal_orders_follow_child_lists() {
    let mut dom = RealDom::new(Vec::new());
    let a = dom.create_node(element("a"));
    let b = dom.create_node(element("b"));
    let c = dom.create_node(element("c"));
    let d = dom.create_node(element("d"));
    // Attach in an order that differs from identity order: [b, a] under
    // the root, then [d] under b and [c] under a.
    dom.add_child(0, b);
    dom.add_child(0, a);
    dom.add_child(b, d);
    dom.add_child(a, c);
    assert_eq!(dom.traverse_depth_first(), vec![0, b, d, a, c], "preorder, children in list order");
    assert_eq!(dom.traverse_breadth_first(), vec![0, b, a, d, c], "level order, children in list order");
}

#[test]
fn mark_pass_dirty_surfaces_at_drain() {
    let passes = vec![pass(7, NodeMask::new_empty(), false, false, vec![])];
    let mut dom = RealDom::new(passes);
    let _ = dom.update_state();
    dom.mark_pass_dirty(0, 7);
    let (work, _) = dom.update_state();
    assert!(work_contains(&work, 7, 0));
}

#[test]
fn size_and_root() {
    let mut dom = RealDom::new(Vec::new());
    assert_eq!(dom.root_id(), 0);
    assert_eq!(dom.size(), 0);
    let a = dom.create_node(element("a"));
    assert_eq!(dom.size(), 1);
    dom.add_child(0, a);
    assert_eq!(dom.size(), 1);
    match dom.get(0).unwrap() {
        NodeType::Element(e) => assert_eq!(e.tag, "Root"),
        _ => panic!("the root is an element"),
    }
}
