use squark::vdom::diff_children;
use squark::{AttributeValue, Diff, Element, Node};

fn text(s: &str) -> Node {
    Node::Text(s.to_string())
}

fn attr(k: &str, v: &str) -> (String, AttributeValue) {
    (k.to_string(), AttributeValue::String(v.to_string()))
}

fn elem(name: &str, attributes: Vec<(String, AttributeValue)>) -> Element {
    Element::new(name.to_string(), attributes, vec![], vec![])
}

fn keyed(name: &str, key: &str) -> Node {
    Node::Element(elem(name, vec![attr("key", key)]))
}

#[test]
fn noop_diff_on_equal_trees() {
    let tree = Node::Element(Element::new(
        "div".to_string(),
        vec![attr("class", "main"), ("on".to_string(), AttributeValue::Bool(true))],
        vec![],
        vec![text("hello"), Node::Null, keyed("li", "a")],
    ));
    let copy = tree.clone();
    assert_eq!(copy, tree);
    assert_eq!(Node::diff(copy, &tree, 0), None);
}

#[test]
fn noop_diff_on_text_and_null() {
    assert_eq!(Node::diff(text("x"), &text("x"), 3), None);
    assert_eq!(Node::diff(Node::Null, &Node::Null, 0), None);
}

#[test]
fn replace_on_type_change() {
    let e = Node::Element(elem("div", vec![]));
    let d = Node::diff(text("x"), &e, 0);
    assert_eq!(d, Some(Diff::ReplaceChild(0, e.clone())));
    let d2 = Node::diff(e.clone(), &text("x"), 1);
    assert_eq!(d2, Some(Diff::ReplaceChild(1, text("x"))));
}

#[test]
fn replace_on_tag_change() {
    let a = elem("div", vec![]);
    let b = elem("span", vec![]);
    let d = Element::diff(a, &b, 2);
    assert_eq!(d, Some(Diff::ReplaceChild(2, Node::Element(b))));
}

#[test]
fn replace_on_text_change() {
    assert_eq!(Node::diff(text("a"), &text("b"), 5), Some(Diff::ReplaceChild(5, text("b"))));
}

#[test]
fn null_transitions() {
    let e = Node::Element(elem("div", vec![]));
    assert_eq!(Node::diff(Node::Null, &e, 4), Some(Diff::AddChild(4, e.clone())));
    assert_eq!(Node::diff(e, &Node::Null, 4), Some(Diff::RemoveChild(4)));
    assert_eq!(Node::diff(text("t"), &Node::Null, 0), Some(Diff::RemoveChild(0)));
}

#[test]
fn attribute_round_trip() {
    let a = elem("div", vec![attr("a", "1"), attr("b", "2")]);
    let b = elem("div", vec![attr("b", "2"), attr("c", "3")]);
    let d = Element::diff(a, &b, 0);
    assert_eq!(
        d,
        Some(Diff::PatchChild(
            0,
            vec![
                Diff::SetAttribute("c".to_string(), AttributeValue::String("3".to_string())),
                Diff::RemoveAttribute("a".to_string()),
            ],
        ))
    );
}

#[test]
fn attribute_value_change_sets() {
    let a = elem("div", vec![attr("x", "1")]);
    let b = elem("div", vec![attr("x", "2")]);
    let d = Element::diff(a, &b, 0);
    assert_eq!(
        d,
        Some(Diff::PatchChild(
            0,
            vec![Diff::SetAttribute("x".to_string(), AttributeValue::String("2".to_string()))],
        ))
    );
}

#[test]
fn handler_replacement_is_unconditional() {
    let a = Element::new(
        "div".to_string(),
        vec![],
        vec![("click".to_string(), "h1".to_string())],
        vec![],
    );
    let b = Element::new(
        "div".to_string(),
        vec![],
        vec![("click".to_string(), "h2".to_string())],
        vec![],
    );
    let d = Element::diff(a, &b, 0);
    assert_eq!(
        d,
        Some(Diff::PatchChild(0, vec![Diff::SetHandler("click".to_string(), "h2".to_string())]))
    );
}

#[test]
fn handler_replacement_even_with_same_id() {
    let a = Element::new(
        "div".to_string(),
        vec![],
        vec![("click".to_string(), "h1".to_string())],
        vec![],
    );
    let b = Element::new(
        "div".to_string(),
        vec![],
        vec![("click".to_string(), "h1".to_string())],
        vec![],
    );
    let d = Element::diff(a, &b, 0);
    assert_eq!(
        d,
        Some(Diff::PatchChild(0, vec![Diff::SetHandler("click".to_string(), "h1".to_string())]))
    );
}

#[test]
fn handler_removal_carries_old_id() {
    let a = Element::new(
        "div".to_string(),
        vec![],
        vec![("click".to_string(), "h1".to_string()), ("input".to_string(), "h2".to_string())],
        vec![],
    );
    let b = Element::new(
        "div".to_string(),
        vec![],
        vec![("click".to_string(), "h3".to_string())],
        vec![],
    );
    let d = Element::diff(a, &b, 0);
    assert_eq!(
        d,
        Some(Diff::PatchChild(
            0,
            vec![
                Diff::SetHandler("click".to_string(), "h3".to_string()),
                Diff::RemoveHandler("input".to_string(), "h2".to_string()),
            ],
        ))
    );
}

#[test]
fn keyed_removal() {
    let a = Element::new(
        "ul".to_string(),
        vec![],
        vec![],
        vec![keyed("li", "a"), keyed("li", "b"), keyed("li", "c")],
    );
    let b = Element::new(
        "ul".to_string(),
        vec![],
        vec![],
        vec![keyed("li", "a"), keyed("li", "c")],
    );
    let d = Element::diff(a, &b, 0);
    assert_eq!(d, Some(Diff::PatchChild(0, vec![Diff::RemoveChild(1)])));
}

#[test]
fn key_mismatch_forces_replace() {
    let a = elem("div", vec![attr("key", "x")]);
    let b = elem("div", vec![attr("key", "y")]);
    let d = Element::diff(a, &b, 0);
    assert_eq!(d, Some(Diff::ReplaceChild(0, Node::Element(elem("div", vec![attr("key", "y")])))));
}

#[test]
fn added_children_get_widening_indices() {
    let d = diff_children(vec![], &vec![text("a"), text("b")], 0);
    assert_eq!(d, vec![Diff::AddChild(0, text("a")), Diff::AddChild(2, text("b"))]);
}

#[test]
fn trailing_children_removed_at_stable_index() {
    let d = diff_children(vec![text("a"), text("b"), text("c")], &vec![text("a")], 0);
    assert_eq!(d, vec![Diff::RemoveChild(1), Diff::RemoveChild(1)]);
}

#[test]
fn null_to_text_child_is_added_in_place() {
    let d = diff_children(vec![Node::Null, text("t")], &vec![text("n"), text("t")], 0);
    assert_eq!(d, vec![Diff::AddChild(0, text("n"))]);
}

#[test]
fn get_key_takes_first_key_attribute() {
    let e = elem("div", vec![attr("class", "c"), attr("key", "k1"), attr("key", "k2")]);
    assert_eq!(e.get_key(), Some("k1".to_string()));
}

#[test]
fn get_key_ignores_flag_valued_key() {
    let e = elem(
        "div",
        vec![("key".to_string(), AttributeValue::Bool(true)), attr("key", "z")],
    );
    assert_eq!(e.get_key(), None);
    assert_eq!(Node::Element(e).get_key(), None);
    assert_eq!(text("t").get_key(), None);
}

#[test]
fn element_accessors() {
    let e = Element::new(
        "p".to_string(),
        vec![attr("id", "root")],
        vec![("blur".to_string(), "h9".to_string())],
        vec![text("inner")],
    );
    assert_eq!(e.name(), "p");
    assert_eq!(e.attributes(), &[attr("id", "root")][..]);
    assert_eq!(e.handlers(), &[("blur".to_string(), "h9".to_string())][..]);
    assert_eq!(e.children(), &[text("inner")][..]);
}

#[test]
fn attribute_value_equality_and_conversion() {
    assert_eq!(AttributeValue::from("x".to_string()), AttributeValue::String("x".to_string()));
    assert_eq!(AttributeValue::from(true), AttributeValue::Bool(true));
    assert!(AttributeValue::String("a".to_string()) != AttributeValue::Bool(true));
    assert!(AttributeValue::Bool(false) != AttributeValue::Bool(true));
}

#[test]
fn nested_change_patches_the_inner_subtree() {
    let a = Element::new(
        "div".to_string(),
        vec![],
        vec![],
        vec![Node::Element(Element::new("p".to_string(), vec![], vec![], vec![text("a")]))],
    );
    let b = Element::new(
        "div".to_string(),
        vec![],
        vec![],
        vec![Node::Element(Element::new("p".to_string(), vec![], vec![], vec![text("b")]))],
    );
    let d = Element::diff(a, &b, 0);
    assert_eq!(
        d,
        Some(Diff::PatchChild(
            0,
            vec![Diff::PatchChild(0, vec![Diff::ReplaceChild(0, text("b"))])],
        ))
    );
}

#[test]
fn keyed_child_removed_before_unkeyed_sibling_is_matched() {
    let d = diff_children(vec![keyed("li", "x"), text("t")], &vec![text("t")], 0);
    assert_eq!(d, vec![Diff::RemoveChild(0)]);
}

#[test]
fn swapped_keys_are_replaced_positionally() {
    let a = Element::new(
        "ul".to_string(),
        vec![],
        vec![],
        vec![keyed("li", "a"), keyed("li", "b")],
    );
    let b = Element::new(
        "ul".to_string(),
        vec![],
        vec![],
        vec![keyed("li", "b"), keyed("li", "a")],
    );
    let d = Element::diff(a, &b, 0);
    assert_eq!(
        d,
        Some(Diff::PatchChild(
            0,
            vec![
                Diff::ReplaceChild(0, keyed("li", "b")),
                Diff::ReplaceChild(1, keyed("li", "a")),
            ],
        ))
    );
}

#[test]
fn empty_elements_with_same_tag_do_not_differ() {
    let a = elem("div", vec![]);
    let b = elem("div", vec![]);
    assert_eq!(Element::diff(a, &b, 7), None);
}

#[test]
fn children_sharing_a_key_are_trimmed_positionally() {
    let d = diff_children(
        vec![keyed("li", "a"), keyed("li", "a")],
        &vec![keyed("li", "a")],
        0,
    );
    assert_eq!(d, vec![Diff::RemoveChild(1)]);
}

#[test]
fn duplicate_attribute_keys_last_write_wins() {
    let a = elem("div", vec![attr("x", "1"), attr("x", "2")]);
    let b = elem("div", vec![attr("x", "2")]);
    let d = Element::diff(a, &b, 0);
    assert_eq!(d, None);
}
