use squark::{handler, uuid, AppView, AttributeValue, Child, Element, HandlerMap, Node};

#[test]
fn text_and_null_views() {
    let t: AppView<i32> = AppView::text("hi".to_string());
    assert_eq!(t.node, Node::Text("hi".to_string()));
    let n: AppView<i32> = AppView::null();
    assert_eq!(n.node, Node::Null);
}

#[test]
fn builder_assembles_element_and_flattens_children() {
    let v: AppView<i32> = AppView::new(
        "div".to_string(),
        vec![("class".to_string(), AttributeValue::String("c".to_string()))],
        vec![("click".to_string(), ("id1".to_string(), 1))],
        vec![
            Child::View(AppView::text("x".to_string())),
            Child::ViewList(vec![AppView::text("y".to_string()), AppView::null()]),
        ],
    );
    let expected = Node::Element(Element::new(
        "div".to_string(),
        vec![("class".to_string(), AttributeValue::String("c".to_string()))],
        vec![("click".to_string(), "id1".to_string())],
        vec![Node::Text("x".to_string()), Node::Text("y".to_string()), Node::Null],
    ));
    assert_eq!(v.node, expected);
    let mut map = v.handler_map;
    assert_eq!(map.remove(&"id1".to_string()), Some(1));
    assert_eq!(map.remove(&"id1".to_string()), None);
}

#[test]
fn builder_merges_child_tables_with_child_winning() {
    let inner: AppView<i32> = AppView::new(
        "span".to_string(),
        vec![],
        vec![("click".to_string(), ("dup".to_string(), 2))],
        vec![],
    );
    let outer: AppView<i32> = AppView::new(
        "div".to_string(),
        vec![],
        vec![("click".to_string(), ("dup".to_string(), 1))],
        vec![Child::View(inner)],
    );
    let mut map = outer.handler_map;
    assert_eq!(map.remove(&"dup".to_string()), Some(2));
}

#[test]
fn builder_collects_every_child_table() {
    let a: AppView<i32> = AppView::new(
        "a".to_string(),
        vec![],
        vec![("click".to_string(), ("ha".to_string(), 10))],
        vec![],
    );
    let b: AppView<i32> = AppView::new(
        "b".to_string(),
        vec![],
        vec![("input".to_string(), ("hb".to_string(), 20))],
        vec![],
    );
    let v: AppView<i32> = AppView::new(
        "div".to_string(),
        vec![],
        vec![],
        vec![Child::ViewList(vec![a, b])],
    );
    let mut map = v.handler_map;
    assert_eq!(map.remove(&"ha".to_string()), Some(10));
    assert_eq!(map.remove(&"hb".to_string()), Some(20));
    assert_eq!(map.remove(&"hc".to_string()), None);
}

#[test]
fn handler_map_insert_overwrites() {
    let mut m: HandlerMap<i32> = HandlerMap::new();
    m.insert("a".to_string(), 1);
    m.insert("b".to_string(), 2);
    m.insert("a".to_string(), 3);
    assert_eq!(m.remove(&"a".to_string()), Some(3));
    assert_eq!(m.remove(&"a".to_string()), None);
    assert_eq!(m.remove(&"b".to_string()), Some(2));
}

#[test]
fn handler_map_merge_prefers_the_poured_table() {
    let mut m1: HandlerMap<i32> = HandlerMap::new();
    m1.insert("a".to_string(), 1);
    m1.insert("b".to_string(), 2);
    let mut m2: HandlerMap<i32> = HandlerMap::new();
    m2.insert("b".to_string(), 9);
    m2.insert("c".to_string(), 3);
    m1.merge(m2);
    assert_eq!(m1.remove(&"a".to_string()), Some(1));
    assert_eq!(m1.remove(&"b".to_string()), Some(9));
    assert_eq!(m1.remove(&"c".to_string()), Some(3));
}

#[test]
fn uuid_is_canonical() {
    let id = uuid();
    let bytes = id.as_bytes();
    assert_eq!(bytes.len(), 36);
    for (i, b) in bytes.iter().enumerate() {
        if i == 8 || i == 13 || i == 18 || i == 23 {
            assert_eq!(*b, b'-');
        } else {
            assert!(b.is_ascii_hexdigit() && !b.is_ascii_uppercase());
        }
    }
    assert_eq!(bytes[14], b'4');
    assert_eq!(bytes[19], b'8');
}

#[test]
fn uuids_are_distinct() {
    assert_ne!(uuid(), uuid());
}

#[test]
fn handler_pairs_a_fresh_id_with_the_callback() {
    let (id, f) = handler(7i32);
    assert_eq!(f, 7);
    assert_eq!(id.len(), 36);
    let (id2, _) = handler(8i32);
    assert_ne!(id, id2);
}
