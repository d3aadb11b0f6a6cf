//! The view builder: it assembles an element node together with the
//! dispatch table of every handler reachable from it.  Handlers arrive
//! already paired with their generated ids; the maps of all children
//! are poured into one table, a later entry winning on a shared id.

use vstd::prelude::*;

use crate::handler_map::HandlerMap;
use crate::model::{ElemModel, NodeModel};
use crate::vdom::{
    attrs_model, handlers_model, lemma_nodes_model_push, nodes_model, Attribute, Element, Handler,
    Node,
};

verus! {

/// The transient output of rendering: a tree plus the dispatch table
/// for its live events.
pub struct AppView<H> {
    pub node: Node,
    pub handler_map: HandlerMap<H>,
}

/// One child argument of the builder: a single view, or a list of
/// views to be spread in place.
pub enum Child<H> {
    View(AppView<H>),
    ViewList(Vec<AppView<H>>),
}

/// The handler bindings that the built element carries: event kind and
/// generated id.
pub open spec fn handler_pairs_model<H>(hs: Seq<(String, (String, H))>) -> Seq<
    (Seq<char>, Seq<char>),
> {
    Seq::new(hs.len(), |j: int| (hs[j].0@, hs[j].1.0@))
}

/// The table of the supplied handlers alone: each generated id mapped
/// to its callback.
pub open spec fn own_handlers_map<H>(hs: Seq<(String, (String, H))>) -> Map<Seq<char>, H>
    decreases hs.len(),
{
    if hs.len() == 0 {
        Map::empty()
    } else {
        own_handlers_map(hs.drop_last()).insert(hs.last().1.0@, hs.last().1.1)
    }
}

/// The node models of a list of views, in order.
pub open spec fn views_nodes<H>(vs: Seq<AppView<H>>) -> Seq<NodeModel> {
    Seq::new(vs.len(), |j: int| vs[j].node@)
}

/// The child nodes that one child argument contributes.
pub open spec fn child_node_part<H>(c: Child<H>) -> Seq<NodeModel> {
    match c {
        Child::View(v) => seq![v.node@],
        Child::ViewList(vs) => views_nodes(vs@),
    }
}

/// The child nodes of the built element, flattened in order.
pub open spec fn child_nodes<H>(cs: Seq<Child<H>>) -> Seq<NodeModel>
    decreases cs.len(),
{
    if cs.len() == 0 {
        Seq::empty()
    } else {
        child_nodes(cs.drop_last()) + child_node_part(cs.last())
    }
}

/// `base` with the tables of the listed views poured in, in order.
pub open spec fn views_fold<H>(base: Map<Seq<char>, H>, vs: Seq<AppView<H>>) -> Map<Seq<char>, H>
    decreases vs.len(),
{
    if vs.len() == 0 {
        base
    } else {
        views_fold(base, vs.drop_last()).union_prefer_right(vs.last().handler_map@)
    }
}

/// `base` with the tables of every child poured in, in order.
pub open spec fn maps_fold<H>(base: Map<Seq<char>, H>, cs: Seq<Child<H>>) -> Map<Seq<char>, H>
    decreases cs.len(),
{
    if cs.len() == 0 {
        base
    } else {
        match cs.last() {
            Child::View(v) => maps_fold(base, cs.drop_last()).union_prefer_right(v.handler_map@),
            Child::ViewList(vs) => views_fold(maps_fold(base, cs.drop_last()), vs@),
        }
    }
}

impl<H> AppView<H> {
    /// Build an element view: the node carries the tag name, the
    /// attributes, one binding per supplied handler and the flattened
    /// child nodes; the table holds the supplied handlers and every
    /// child's table, a later entry winning on a shared id.
    pub fn new(
        name: String,
        attributes: Vec<Attribute>,
        handlers: Vec<(String, (String, H))>,
        children: Vec<Child<H>>,
    ) -> (r: AppView<H>)
        ensures
            r.node@ == NodeModel::Elem(
                ElemModel {
                    name: name@,
                    attributes: attrs_model(attributes@),
                    handlers: handler_pairs_model(handlers@),
                    children: child_nodes(children@),
                },
            ),
            r.handler_map@ == maps_fold(own_handlers_map(handlers@), children@),
    {
        let ghost horig = handlers@;
        let mut handler_map: HandlerMap<H> = HandlerMap::new();
        let mut hlist: Vec<Handler> = Vec::new();
        let mut hrem = handlers;
        let ghost mut k: int = 0;
        proof {
            assert(horig.take(0) =~= Seq::<(String, (String, H))>::empty());
            assert(handlers_model(hlist@) =~= handler_pairs_model(horig.take(0)));
        }
        while hrem.len() > 0
            invariant
                0 <= k <= horig.len(),
                hrem@ =~= horig.skip(k),
                handlers_model(hlist@) == handler_pairs_model(horig.take(k)),
                handler_map@ == own_handlers_map(horig.take(k)),
            decreases hrem@.len(),
        {
            let entry = hrem.remove(0);
            let kind = entry.0;
            let id = entry.1.0;
            let f = entry.1.1;
            proof {
                assert(horig.skip(k)[0] == horig[k]);
                assert(horig.skip(k).remove(0) =~= horig.skip(k + 1));
                assert(horig.take(k + 1).drop_last() =~= horig.take(k));
                assert(horig.take(k + 1).last() == horig[k]);
            }
            let ghost pre_h = hlist@;
            hlist.push((kind, id.clone()));
            handler_map.insert(id, f);
            proof {
                let newm = handlers_model(hlist@);
                let tgt = handler_pairs_model(horig.take(k + 1));
                assert(handlers_model(pre_h).len() == pre_h.len());
                assert(handler_pairs_model(horig.take(k)).len() == horig.take(k).len());
                assert(pre_h.len() == k);
                assert forall|j: int| 0 <= j < k + 1 implies newm[j] == tgt[j] by {
                    assert(horig.take(k + 1)[j] == horig[j]);
                    if j < k {
                        assert(hlist@[j] == pre_h[j]);
                        assert(handlers_model(pre_h)[j] == handler_pairs_model(horig.take(k))[j]);
                        assert(horig.take(k)[j] == horig[j]);
                    } else {
                        assert(hlist@[j] == (kind, id));
                    }
                }
                assert(newm =~= tgt);
                k = k + 1;
            }
        }
        proof {
            assert(horig.take(horig.len() as int) =~= horig);
        }
        let ghost base = handler_map@;
        let ghost corig = children@;
        let mut nodes: Vec<Node> = Vec::new();
        let mut crem = children;
        let ghost mut c: int = 0;
        proof {
            assert(corig.take(0) =~= Seq::<Child<H>>::empty());
            assert(nodes_model(nodes@) =~= child_nodes(corig.take(0)));
        }
        while crem.len() > 0
            invariant
                0 <= c <= corig.len(),
                crem@ =~= corig.skip(c),
                nodes_model(nodes@) == child_nodes(corig.take(c)),
                handler_map@ == maps_fold(base, corig.take(c)),
            decreases crem@.len(),
        {
            proof {
                assert(corig.skip(c)[0] == corig[c]);
                assert(corig.skip(c).remove(0) =~= corig.skip(c + 1));
                assert(corig.take(c + 1).drop_last() =~= corig.take(c));
                assert(corig.take(c + 1).last() == corig[c]);
            }
            match crem.remove(0) {
                Child::View(v) => {
                    let AppView { node: vn, handler_map: vm } = v;
                    let ghost pre_nodes = nodes@;
                    handler_map.merge(vm);
                    nodes.push(vn);
                    proof {
                        lemma_nodes_model_push(pre_nodes, vn);
                        assert(nodes_model(nodes@) =~= child_nodes(corig.take(c + 1)));
                    }
                },
                Child::ViewList(vs) => {
                    let ghost vorig = vs@;
                    let ghost inner_base = handler_map@;
                    let ghost inner_nodes = nodes_model(nodes@);
                    let mut vrem = vs;
                    let ghost mut w: int = 0;
                    proof {
                        assert(vorig.take(0) =~= Seq::<AppView<H>>::empty());
                        assert(views_nodes(vorig.take(0)) =~= Seq::<NodeModel>::empty());
                        assert(inner_nodes + views_nodes(vorig.take(0)) =~= inner_nodes);
                    }
                    while vrem.len() > 0
                        invariant
                            0 <= w <= vorig.len(),
                            vrem@ =~= vorig.skip(w),
                            nodes_model(nodes@) == inner_nodes + views_nodes(vorig.take(w)),
                            handler_map@ == views_fold(inner_base, vorig.take(w)),
                        decreases vrem@.len(),
                    {
                        proof {
                            assert(vorig.skip(w)[0] == vorig[w]);
                            assert(vorig.skip(w).remove(0) =~= vorig.skip(w + 1));
                            assert(vorig.take(w + 1).drop_last() =~= vorig.take(w));
                            assert(vorig.take(w + 1).last() == vorig[w]);
                        }
                        let v = vrem.remove(0);
                        let AppView { node: vn, handler_map: vm } = v;
                        let ghost pre_nodes = nodes@;
                        handler_map.merge(vm);
                        nodes.push(vn);
                        proof {
                            lemma_nodes_model_push(pre_nodes, vn);
                            assert(views_nodes(vorig.take(w + 1)) =~= views_nodes(
                                vorig.take(w),
                            ).push(vorig[w].node@));
                            assert(nodes_model(nodes@) =~= inner_nodes + views_nodes(
                                vorig.take(w + 1),
                            ));
                            w = w + 1;
                        }
                    }
                    proof {
                        assert(vorig.take(vorig.len() as int) =~= vorig);
                        assert(nodes_model(nodes@) =~= child_nodes(corig.take(c + 1)));
                    }
                },
            }
            proof {
                c = c + 1;
            }
        }
        proof {
            assert(corig.take(corig.len() as int) =~= corig);
        }
        let node = Node::Element(Element::new(name, attributes, hlist, nodes));
        AppView { node, handler_map }
    }

    /// A view of a bare text leaf, with an empty dispatch table.
    pub fn text(s: String) -> (r: AppView<H>)
        ensures
            r.node@ == NodeModel::Text(s@),
            r.handler_map@ == Map::<Seq<char>, H>::empty(),
    {
        AppView { node: Node::Text(s), handler_map: HandlerMap::new() }
    }

    /// A view that renders nothing, with an empty dispatch table.
    pub fn null() -> (r: AppView<H>)
        ensures
            r.node@ == NodeModel::Null,
            r.handler_map@ == Map::<Seq<char>, H>::empty(),
    {
        AppView { node: Node::Null, handler_map: HandlerMap::new() }
    }
}

} // verus!
