use squark::{App, AppView, Child, Diff, Env, Node, Task};

#[derive(Clone, Debug, PartialEq)]
enum CounterAction {
    Increment,
    Nop,
}

struct CounterApp;

impl App for CounterApp {
    type State = u64;

    type Action = CounterAction;

    type Deferred = u8;

    type Callback = i32;

    fn reducer(&self, state: &u64, action: CounterAction) -> (u64, Task<u8>) {
        match action {
            CounterAction::Increment => (*state + 1, Task::empty()),
            CounterAction::Nop => (*state, Task::empty()),
        }
    }

    fn view(&self, state: &u64) -> AppView<i32> {
        AppView::new(
            "div".to_string(),
            vec![],
            vec![],
            vec![
                Child::View(AppView::text(state.to_string())),
                Child::View(AppView::new("button".to_string(), vec![], vec![], vec![])),
            ],
        )
    }
}

fn rendered_tree(count: &str) -> Node {
    Node::Element(squark::Element::new(
        "div".to_string(),
        vec![],
        vec![],
        vec![
            Node::Text(count.to_string()),
            Node::Element(squark::Element::new("button".to_string(), vec![], vec![], vec![])),
        ],
    ))
}

#[test]
fn first_render_adds_whole_tree() {
    let mut env = Env::new(CounterApp, 0u64);
    assert_eq!(*env.get_state(), 0);
    assert_eq!(*env.get_node(), Node::Null);
    let d = env.run();
    assert_eq!(d, Some(Diff::AddChild(0, rendered_tree("0"))));
    assert_eq!(*env.get_node(), rendered_tree("0"));
}

#[test]
fn end_to_end_increment_patches_only_the_text() {
    let mut env = Env::new(CounterApp, 0u64);
    env.run();
    let (task, sched) = env.on_action(CounterAction::Increment);
    assert!(task.into_futures().is_empty());
    assert!(sched);
    assert_eq!(*env.get_state(), 1);
    let d = env.run();
    assert_eq!(
        d,
        Some(Diff::PatchChild(0, vec![Diff::ReplaceChild(0, Node::Text("1".to_string()))]))
    );
    assert_eq!(*env.get_node(), rendered_tree("1"));
}

#[test]
fn render_coalescing() {
    let mut env = Env::new(CounterApp, 0u64);
    env.run();
    let (_, first) = env.on_action(CounterAction::Increment);
    let (_, second) = env.on_action(CounterAction::Increment);
    assert!(first);
    assert!(!second);
    assert_eq!(*env.get_state(), 2);
    let d = env.run();
    assert_eq!(
        d,
        Some(Diff::PatchChild(0, vec![Diff::ReplaceChild(0, Node::Text("2".to_string()))]))
    );
    let (_, third) = env.on_action(CounterAction::Increment);
    assert!(third, "after the render ran, a new change schedules again");
}

#[test]
fn unchanged_state_is_a_no_op() {
    let mut env = Env::new(CounterApp, 5u64);
    assert!(!env.set_state(5));
    assert!(env.set_state(6));
    assert!(!env.set_state(7), "a render is already pending");
    assert_eq!(*env.get_state(), 7);
}

#[test]
fn rerender_without_changes_yields_no_patch() {
    let mut env = Env::new(CounterApp, 3u64);
    assert!(env.run().is_some());
    assert_eq!(env.run(), None);
    assert_eq!(*env.get_node(), rendered_tree("3"));
}

#[test]
fn at_most_once_handler_firing() {
    let mut env = Env::new(CounterApp, 0u64);
    let view = AppView::new(
        "div".to_string(),
        vec![],
        vec![("click".to_string(), ("hid-1".to_string(), 42))],
        vec![],
    );
    let d = env.apply_view(view);
    assert!(d.is_some());
    assert_eq!(env.pop_handler(&"hid-1".to_string()), Some(42));
    assert_eq!(env.pop_handler(&"hid-1".to_string()), None);
    assert_eq!(env.pop_handler(&"never-there".to_string()), None);
}

#[test]
fn rerender_replaces_the_dispatch_table() {
    let mut env = Env::new(CounterApp, 0u64);
    let v1 = AppView::new(
        "div".to_string(),
        vec![],
        vec![("click".to_string(), ("old-id".to_string(), 1))],
        vec![],
    );
    env.apply_view(v1);
    let v2 = AppView::new(
        "div".to_string(),
        vec![],
        vec![("click".to_string(), ("new-id".to_string(), 2))],
        vec![],
    );
    env.apply_view(v2);
    assert_eq!(env.pop_handler(&"old-id".to_string()), None, "stale id is silently a miss");
    assert_eq!(env.pop_handler(&"new-id".to_string()), Some(2));
}

#[test]
fn set_node_replaces_the_stored_tree() {
    let mut env = Env::new(CounterApp, 0u64);
    env.set_node(Node::Text("t".to_string()));
    assert_eq!(*env.get_node(), Node::Text("t".to_string()));
}

#[test]
fn no_op_reducer_schedules_nothing() {
    let mut env = Env::new(CounterApp, 4u64);
    env.run();
    let (_, sched) = env.on_action(CounterAction::Nop);
    assert!(!sched);
    assert_eq!(env.run(), None);
}

#[test]
fn task_collects_deferred_work_in_order() {
    let mut t: Task<u8> = Task::empty();
    t.push(1);
    t.push(2);
    assert_eq!(t.into_futures(), vec![1, 2]);
    let d: Task<u8> = Task::default();
    assert!(d.into_futures().is_empty());
}
