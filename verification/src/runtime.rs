//! The runtime loop of one running instance: current state, last
//! rendered tree, current dispatch table and the render-scheduled flag,
//! driven by pure application callbacks.  Each operation is specified
//! as a step of a state machine over the instance model; the host only
//! performs the returned actions — emitting deferred work, scheduling
//! one render, applying a patch.

use vstd::prelude::*;

use crate::builder::AppView;
use crate::handler_map::HandlerMap;
use crate::model::{children_fit, node_diff, node_fits, DiffModel, NodeModel};
use crate::vdom::{nodes_model, opt_diff_model, Diff, Node};

verus! {

/// A bundle of deferred computations handed back by a reducer; the
/// host resolves each one into a future action.
pub struct Task<D> {
    items: Vec<D>,
}

impl<D> View for Task<D> {
    type V = Seq<D>;

    closed spec fn view(&self) -> Seq<D> {
        self.items@
    }
}

impl<D> Task<D> {
    /// A bundle with nothing in it.
    pub fn empty() -> (r: Task<D>)
        ensures
            r@ == Seq::<D>::empty(),
    {
        Task { items: Vec::new() }
    }

    /// Add one deferred computation.
    pub fn push(&mut self, item: D)
        ensures
            final(self)@ == old(self)@.push(item),
    {
        self.items.push(item);
    }

    /// Surrender the deferred computations, in order.
    pub fn into_futures(self) -> (r: Vec<D>)
        ensures
            r@ == self@,
    {
        self.items
    }
}

impl<D> Default for Task<D> {
    /// The default bundle is empty.
    fn default() -> (r: Task<D>)
        ensures
            r@ == Seq::<D>::empty(),
    {
        Task::empty()
    }
}

/// The interface an application implements: a state type with
/// decidable equality, an action type, a deferred-computation type, a
/// callback type, a pure reducer and a pure view function.
pub trait App: Sized {
    type State: PartialEq;

    type Action;

    type Deferred;

    type Callback;

    /// Compute the next state and the deferred work for one action.
    fn reducer(&self, state: &Self::State, action: Self::Action) -> (Self::State, Task<
        Self::Deferred,
    >);

    /// Render the tree and dispatch table for a state.
    fn view(&self, state: &Self::State) -> AppView<Self::Callback>;
}

/// The model of one running instance.
#[verifier::ext_equal]
pub struct EnvModel<S, H> {
    pub state: S,
    pub node: NodeModel,
    pub handlers: Map<Seq<char>, H>,
    pub scheduled: bool,
}

/// The store-and-maybe-schedule step: the state is replaced; a render
/// is requested exactly when none is pending yet.
pub open spec fn step_store<S, H>(e: EnvModel<S, H>, ns: S) -> (EnvModel<S, H>, bool) {
    if e.scheduled {
        (EnvModel { state: ns, ..e }, false)
    } else {
        (EnvModel { state: ns, scheduled: true, ..e }, true)
    }
}

/// The accept-state step: an unchanged state is a no-op, otherwise the
/// state is stored and a render requested unless one is pending.
pub open spec fn step_set_state<S, H>(e: EnvModel<S, H>, ns: S) -> (EnvModel<S, H>, bool) {
    if ns == e.state {
        (e, false)
    } else {
        step_store(e, ns)
    }
}

/// The apply-view step: the dispatch table is replaced by the fresh
/// one; the fresh tree is diffed against the stored one and replaces
/// it exactly when a difference exists.  A tree too large for the
/// engine's index arithmetic produces no patch and leaves the stored
/// tree alone.
pub open spec fn step_apply<S, H>(
    e: EnvModel<S, H>,
    vnode: NodeModel,
    vmap: Map<Seq<char>, H>,
) -> (EnvModel<S, H>, Option<DiffModel>) {
    if node_fits(vnode) {
        let d = node_diff(e.node, vnode, 0);
        (
            EnvModel {
                handlers: vmap,
                node: if d is Some {
                    vnode
                } else {
                    e.node
                },
                ..e
            },
            d,
        )
    } else {
        (EnvModel { handlers: vmap, ..e }, None)
    }
}

/// The render step: the pending flag is cleared before the fresh view
/// is taken, then the fresh view is applied.
pub open spec fn step_render<S, H>(
    e: EnvModel<S, H>,
    vnode: NodeModel,
    vmap: Map<Seq<char>, H>,
) -> (EnvModel<S, H>, Option<DiffModel>) {
    step_apply(EnvModel { scheduled: false, ..e }, vnode, vmap)
}

/// The take-handler step: the callback stored under the id leaves the
/// table, so a second take of the same id finds nothing.
pub open spec fn step_pop<S, H>(e: EnvModel<S, H>, id: Seq<char>) -> (
    EnvModel<S, H>,
    Option<H>,
) {
    if e.handlers.contains_key(id) {
        (EnvModel { handlers: e.handlers.remove(id), ..e }, Some(e.handlers[id]))
    } else {
        (e, None)
    }
}

/// One running instance: the application, its current state, the last
/// rendered tree, the current dispatch table and the render-scheduled
/// flag, all exclusively owned.
pub struct Env<A: App> {
    app: A,
    state: A::State,
    node: Node,
    handler_map: HandlerMap<A::Callback>,
    scheduled: bool,
}

impl<A: App> View for Env<A> {
    type V = EnvModel<A::State, A::Callback>;

    closed spec fn view(&self) -> EnvModel<A::State, A::Callback> {
        EnvModel {
            state: self.state,
            node: self.node@,
            handlers: self.handler_map@,
            scheduled: self.scheduled,
        }
    }
}

/// Does every element of the subtree leave room for the index
/// arithmetic of the reconciliation walk?
#[verifier::loop_isolation(false)]
pub fn node_fits_check(n: &Node) -> (r: bool)
    ensures
        r == node_fits(n@),
    decreases *n,
{
    match n {
        Node::Element(e) => {
            let ghost cm = nodes_model(e.children@);
            proof {
                crate::vdom::lemma_nodes_model_len(e.children@);
                assert(n@ == NodeModel::Elem(crate::vdom::elem_model(*e)));
            }
            if e.children.len() > usize::MAX / 2 {
                return false;
            }
            let mut j: usize = 0;
            while j < e.children.len()
                invariant
                    j <= e.children@.len(),
                    cm == nodes_model(e.children@),
                    cm.len() == e.children@.len(),
                    2 * e.children@.len() <= usize::MAX,
                    forall|p: int| 0 <= p < j ==> node_fits(#[trigger] cm[p]),
                decreases e.children@.len() - j,
            {
                proof {
                    crate::vdom::lemma_nodes_model_index(e.children@, j as int);
                    assert(decreases_to!(*n => *e));
                    assert(decreases_to!(*e => e.children));
                    assert(decreases_to!(e.children => e.children@));
                    assert(decreases_to!(e.children@ => e.children@[j as int]));
                }
                if !node_fits_check(&e.children[j]) {
                    proof {
                        if node_fits(n@) {
                            assert(children_fit(cm));
                            crate::model::lemma_children_fit_index(cm, j as int);
                            assert(false);
                        }
                    }
                    return false;
                }
                j += 1;
            }
            proof {
                crate::model::lemma_children_fit_of_all(cm);
            }
            true
        },
        _ => true,
    }
}

impl<A: App> Env<A> {
    /// A fresh instance: the given state, an empty rendered tree, an
    /// empty dispatch table, no render pending.
    pub fn new(app: A, state: A::State) -> (r: Env<A>)
        ensures
            r@ == (EnvModel {
                state: state,
                node: NodeModel::Null,
                handlers: Map::<Seq<char>, A::Callback>::empty(),
                scheduled: false,
            }),
    {
        Env { app, state, node: Node::Null, handler_map: HandlerMap::new(), scheduled: false }
    }

    /// The current state.
    pub fn get_state(&self) -> (r: &A::State)
        ensures
            *r == self@.state,
    {
        &self.state
    }

    /// The last rendered tree.
    pub fn get_node(&self) -> (r: &Node)
        ensures
            r@ == self@.node,
    {
        &self.node
    }

    /// Replace the stored rendered tree.
    pub fn set_node(&mut self, node: Node)
        ensures
            final(self)@ == (EnvModel { node: node@, ..old(self)@ }),
    {
        self.node = node;
    }

    /// Accept a freshly computed state: an unchanged state is a no-op;
    /// otherwise it is stored, and the result says whether the caller
    /// must schedule a render — true exactly when none was pending.
    pub fn set_state(&mut self, new_state: A::State) -> (sched: bool)
        ensures
            vstd::laws_eq::obeys_concrete_eq::<A::State>() ==> (final(self)@, sched)
                == step_set_state(old(self)@, new_state),
            final(self)@.node == old(self)@.node,
            final(self)@.handlers == old(self)@.handlers,
            (final(self)@ == old(self)@ && sched == false) || ((final(self)@, sched) == step_store(
                old(self)@,
                new_state,
            )),
    {
        proof {
            reveal(vstd::laws_eq::obeys_concrete_eq);
        }
        if self.state == new_state {
            return false;
        }
        self.state = new_state;
        if self.scheduled {
            return false;
        }
        self.scheduled = true;
        true
    }

    /// Feed one action through the reducer, store the resulting state,
    /// and hand back the reducer's deferred work together with the
    /// render request.  The instance takes exactly one accept-state
    /// step for some state.
    pub fn on_action(&mut self, action: A::Action) -> (r: (Task<A::Deferred>, bool))
        ensures
            final(self)@.node == old(self)@.node,
            final(self)@.handlers == old(self)@.handlers,
            old(self)@.scheduled ==> final(self)@.scheduled,
            vstd::laws_eq::obeys_concrete_eq::<A::State>() ==> exists|ns: A::State|
                (final(self)@, r.1) == step_set_state(old(self)@, ns),
    {
        let (ns, task) = self.app.reducer(&self.state, action);
        let ghost nsg = ns;
        let sched = self.set_state(ns);
        proof {
            if vstd::laws_eq::obeys_concrete_eq::<A::State>() {
                assert((self@, sched) == step_set_state(old(self)@, nsg));
            }
        }
        (task, sched)
    }

    /// Install a freshly built view: the dispatch table is replaced;
    /// the fresh tree is diffed against the stored one, which it
    /// replaces exactly when a difference exists, and the patch, if
    /// any, is handed back for the host to apply.
    pub fn apply_view(&mut self, v: AppView<A::Callback>) -> (d: Option<Diff>)
        ensures
            (final(self)@, opt_diff_model(d)) == step_apply(old(self)@, v.node@, v.handler_map@),
    {
        let AppView { node: vnode, handler_map: vmap } = v;
        let fits = node_fits_check(&vnode);
        self.handler_map = vmap;
        if fits {
            let old_node = self.node.clone();
            let d = Node::diff(old_node, &vnode, 0);
            if d.is_some() {
                self.node = vnode;
            }
            d
        } else {
            None
        }
    }

    /// One render: clear the pending flag first, take the fresh view
    /// of the current state, and install it.  The result is the patch
    /// for the host to apply, if the tree changed.
    pub fn run(&mut self) -> (d: Option<Diff>)
        ensures
            final(self)@.state == old(self)@.state,
            final(self)@.scheduled == false,
            exists|vn: NodeModel, vm: Map<Seq<char>, A::Callback>|
                (final(self)@, opt_diff_model(d)) == step_render(old(self)@, vn, vm),
    {
        self.scheduled = false;
        let ghost mid = self@;
        let v = self.app.view(&self.state);
        let ghost vn = v.node@;
        let ghost vm = v.handler_map@;
        let d = self.apply_view(v);
        proof {
            assert(mid == (EnvModel { scheduled: false, ..old(self)@ }));
            assert((self@, opt_diff_model(d)) == step_render(old(self)@, vn, vm));
        }
        d
    }

    /// Take the callback bound to `id`, if it is still present: taking
    /// consumes it, so the same id fires at most once per render
    /// cycle, and an unknown or stale id is silently a miss.
    pub fn pop_handler(&mut self, id: &String) -> (r: Option<A::Callback>)
        ensures
            (final(self)@, r) == step_pop(old(self)@, id@),
    {
        self.handler_map.remove(id)
    }
}

} // verus!
