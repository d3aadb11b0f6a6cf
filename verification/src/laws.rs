//! Laws of the diff engine and of the runtime state machine, stated
//! over the models and proved once and for all.

use vstd::prelude::*;

use crate::model::{
    child_pairs, children_diff, elem_diff, elem_key, handlers_diff, is_survivor, key_in_list,
    keyed_removals, keys_has, keys_has_before, keys_unique, last_val, lemma_last_val_at, node_diff,
    node_key, remove_attr_edits, remove_handler_edits, set_attr_edits, set_handler_edits,
    AttrModel, DiffModel, ElemModel, NodeModel,
};
use crate::runtime::{step_pop, step_render, step_set_state, step_store, EnvModel};

verus! {

/// An element within the reach of the no-op law: its attribute keys
/// are distinct — duplicate keys are against the data model's
/// convention and make the engine re-set them — and it binds no
/// handlers, which the engine re-sets on every render by design.
pub open spec fn elem_clean(e: ElemModel) -> bool
    decreases e,
{
    &&& keys_unique(e.attributes)
    &&& e.handlers.len() == 0
    &&& children_clean(e.children)
}

/// Every node of the list is clean.
pub open spec fn children_clean(s: Seq<NodeModel>) -> bool
    decreases s,
{
    s.len() == 0 || (node_clean(s[0]) && children_clean(s.drop_first()))
}

/// A tree within the reach of the no-op law.
pub open spec fn node_clean(n: NodeModel) -> bool
    decreases n,
{
    match n {
        NodeModel::Elem(e) => elem_clean(e),
        _ => true,
    }
}

/// Cleanliness is positional.
proof fn lemma_children_clean_index(s: Seq<NodeModel>, j: int)
    requires
        children_clean(s),
        0 <= j < s.len(),
    ensures
        node_clean(s[j]),
    decreases j,
{
    if j > 0 {
        lemma_children_clean_index(s.drop_first(), j - 1);
    }
}

/// Diffing an attribute list with distinct keys against itself emits
/// no `SetAttribute`.
proof fn lemma_noop_attr_sets(a: Seq<(Seq<char>, AttrModel)>, j: int)
    requires
        keys_unique(a),
        0 <= j <= a.len(),
    ensures
        set_attr_edits(a, a, j) == Seq::<DiffModel>::empty(),
    decreases a.len() - j,
{
    if j < a.len() {
        assert(!keys_has_before(a, j, a[j].0)) by {
            if keys_has_before(a, j, a[j].0) {
                let m = choose|m: int| 0 <= m < j && m < a.len() && a[m].0 == a[j].0;
                assert(a[m].0 != a[j].0);
            }
        }
        assert forall|p: int| j < p < a.len() implies (#[trigger] a[p]).0 != a[j].0 by {
            assert(a[j].0 != a[p].0);
        }
        lemma_last_val_at(a, a[j].0, j);
        lemma_noop_attr_sets(a, j + 1);
    }
}

/// Diffing an attribute list against itself emits no
/// `RemoveAttribute`.
proof fn lemma_noop_attr_removes(a: Seq<(Seq<char>, AttrModel)>, j: int)
    requires
        0 <= j <= a.len(),
    ensures
        remove_attr_edits(a, a, j) == Seq::<DiffModel>::empty(),
    decreases a.len() - j,
{
    if j < a.len() {
        assert(keys_has(a, a[j].0));
        lemma_noop_attr_removes(a, j + 1);
    }
}

/// Every node of the list survives the keyed pre-filter against a
/// list that contains it.
proof fn lemma_self_survivors(c: Seq<NodeModel>)
    ensures
        forall|j: int| 0 <= j < c.len() ==> is_survivor(#[trigger] c[j], c),
{
    assert forall|j: int| 0 <= j < c.len() implies is_survivor(#[trigger] c[j], c) by {
        match node_key(c[j]) {
            Some(k) => {
                assert(node_key(c[j]) == Some(k));
                assert(key_in_list(c, k));
            },
            None => {},
        }
    }
}

/// The keyed pre-filter of a list against itself removes nothing.
proof fn lemma_noop_removals(rest: Seq<NodeModel>, all: Seq<NodeModel>, i: int)
    requires
        forall|j: int| 0 <= j < rest.len() ==> is_survivor(#[trigger] rest[j], all),
    ensures
        keyed_removals(rest, all, i) == Seq::<DiffModel>::empty(),
    decreases rest.len(),
{
    if rest.len() > 0 {
        assert forall|j: int| 0 <= j < rest.drop_first().len() implies is_survivor(
            #[trigger] rest.drop_first()[j],
            all,
        ) by {
            assert(rest.drop_first()[j] == rest[j + 1]);
        }
        lemma_noop_removals(rest.drop_first(), all, i + 1);
    }
}

/// The positional walk of a clean list against itself emits nothing.
proof fn lemma_noop_pairs(rest: Seq<NodeModel>, all: Seq<NodeModel>, i: int)
    requires
        children_clean(rest),
        forall|j: int| 0 <= j < rest.len() ==> is_survivor(#[trigger] rest[j], all),
    ensures
        child_pairs(rest, rest, all, i) == Seq::<DiffModel>::empty(),
    decreases rest, 2int,
{
    if rest.len() > 0 {
        lemma_noop_diff(rest[0], i);
        assert forall|j: int| 0 <= j < rest.drop_first().len() implies is_survivor(
            #[trigger] rest.drop_first()[j],
            all,
        ) by {
            assert(rest.drop_first()[j] == rest[j + 1]);
        }
        lemma_noop_pairs(rest.drop_first(), all, i + 1);
    }
}

/// Reconciling a clean child list against itself emits nothing.
proof fn lemma_noop_children(c: Seq<NodeModel>, i: int)
    requires
        children_clean(c),
    ensures
        children_diff(c, c, i) == Seq::<DiffModel>::empty(),
    decreases c, 3int,
{
    lemma_self_survivors(c);
    lemma_noop_removals(c, c, i);
    lemma_noop_pairs(c, c, 0);
    assert(keyed_removals(c, c, i) + child_pairs(c, c, c, 0) =~= Seq::<DiffModel>::empty());
}

/// Diffing a clean element against itself yields no edit.
proof fn lemma_noop_elem(e: ElemModel, i: int)
    requires
        elem_clean(e),
    ensures
        elem_diff(e, e, i) is None,
    decreases e, 0int,
{
    lemma_noop_attr_sets(e.attributes, 0);
    lemma_noop_attr_removes(e.attributes, 0);
    lemma_noop_children(e.children, 0);
    assert(set_handler_edits(e.handlers, 0) == Seq::<DiffModel>::empty());
    assert(remove_handler_edits(e.handlers, e.handlers, 0) == Seq::<DiffModel>::empty());
    assert(crate::model::attrs_diff(e.attributes, e.attributes) + handlers_diff(
        e.handlers,
        e.handlers,
    ) + children_diff(e.children, e.children, 0) =~= Seq::<DiffModel>::empty());
}

/// No-op diff: a clean tree diffed against an equal tree yields no
/// edit, at any position.  A tree is clean when no element carries
/// duplicate attribute keys or any handler binding: the engine re-sets
/// every handler by design, and a duplicate key always re-sets.
pub proof fn lemma_noop_diff(n: NodeModel, i: int)
    requires
        node_clean(n),
    ensures
        node_diff(n, n, i) is None,
    decreases n, 1int,
{
    if let NodeModel::Elem(e) = n {
        lemma_noop_elem(e, i);
    }
}

/// Replace on kind change: a text leaf against an element, an element
/// against a text leaf, or two elements of different names, always
/// yields `ReplaceChild` — never a patch.
pub proof fn lemma_replace_on_kind_change(a: NodeModel, b: NodeModel, i: int)
    requires
        (a is Text && b is Elem) || (a is Elem && b is Text) || (a matches NodeModel::Elem(ea)
            && b matches NodeModel::Elem(eb) && ea.name != eb.name),
    ensures
        node_diff(a, b, i) == Some(DiffModel::ReplaceChild(i, b)),
{
}

/// The `SetHandler` edits stand at the front of the handler
/// reconciliation, one per new binding, in order.
proof fn lemma_set_handler_edits_index(new: Seq<(Seq<char>, Seq<char>)>, m: int)
    requires
        0 <= m <= new.len(),
    ensures
        set_handler_edits(new, m).len() == new.len() - m,
        forall|j: int|
            m <= j < new.len() ==> #[trigger] set_handler_edits(new, m)[j - m]
                == DiffModel::SetHandler(new[j].0, new[j].1),
    decreases new.len() - m,
{
    if m < new.len() {
        lemma_set_handler_edits_index(new, m + 1);
        assert forall|j: int| m <= j < new.len() implies #[trigger] set_handler_edits(new, m)[j
            - m] == DiffModel::SetHandler(new[j].0, new[j].1) by {
            if j > m {
                assert(set_handler_edits(new, m + 1)[j - (m + 1)] == DiffModel::SetHandler(
                    new[j].0,
                    new[j].1,
                ));
                assert(set_handler_edits(new, m)[j - m] == set_handler_edits(new, m + 1)[j - m
                    - 1]);
            }
        }
    }
}

/// Handler replacement is unconditional: whenever two elements are
/// close enough to be patched, every handler binding of the new
/// element appears as a `SetHandler` edit — whether or not an old
/// binding carried the same kind, or even the same id — and the diff
/// is never empty.
pub proof fn lemma_handler_replacement(a: ElemModel, b: ElemModel, i: int, j: int)
    requires
        a.name == b.name,
        !(elem_key(a) is Some && elem_key(b) is Some && elem_key(a) != elem_key(b)),
        0 <= j < b.handlers.len(),
    ensures
        elem_diff(a, b, i) is Some,
        elem_diff(a, b, i)->Some_0 matches DiffModel::PatchChild(p, edits) && p == i
            && edits.contains(DiffModel::SetHandler(b.handlers[j].0, b.handlers[j].1)),
{
    let attrs = crate::model::attrs_diff(a.attributes, b.attributes);
    let hs = handlers_diff(a.handlers, b.handlers);
    let cs = children_diff(a.children, b.children, 0);
    let edits = attrs + hs + cs;
    lemma_set_handler_edits_index(b.handlers, 0);
    assert(set_handler_edits(b.handlers, 0)[j - 0] == DiffModel::SetHandler(
        b.handlers[j].0,
        b.handlers[j].1,
    ));
    assert(hs[j] == DiffModel::SetHandler(b.handlers[j].0, b.handlers[j].1));
    assert(edits[attrs.len() + j] == hs[j]);
    assert(edits.contains(DiffModel::SetHandler(b.handlers[j].0, b.handlers[j].1)));
    assert(edits.len() > 0);
}

/// Key mismatch forces replace: two keyed elements with different keys
/// are never patched, whatever else they share — the whole subtree is
/// replaced.
pub proof fn lemma_key_mismatch_replaces(a: ElemModel, b: ElemModel, i: int)
    requires
        elem_key(a) is Some,
        elem_key(b) is Some,
        elem_key(a) != elem_key(b),
    ensures
        elem_diff(a, b, i) == Some(DiffModel::ReplaceChild(i, NodeModel::Elem(b))),
{
}

/// Which `SetAttribute` edits the set phase emits, from position `m`
/// on: exactly one for each new attribute that the old mapping does
/// not still hold with an identical value.
proof fn lemma_set_attr_edits_member(
    old: Seq<(Seq<char>, AttrModel)>,
    new: Seq<(Seq<char>, AttrModel)>,
    m: int,
    k: Seq<char>,
    v: AttrModel,
)
    requires
        0 <= m <= new.len(),
    ensures
        set_attr_edits(old, new, m).contains(DiffModel::SetAttribute(k, v)) <==> exists|j: int|
            m <= j < new.len() && new[j] == (k, v) && (keys_has_before(new, j, k) || last_val(
                old,
                k,
            ) != Some(v)),
    decreases new.len() - m,
{
    if m < new.len() {
        lemma_set_attr_edits_member(old, new, m + 1, k, v);
        let cur = set_attr_edits(old, new, m);
        let rest = set_attr_edits(old, new, m + 1);
        let here = new[m] == (k, v) && (keys_has_before(new, m, k) || last_val(old, k) != Some(v));
        assert(cur.contains(DiffModel::SetAttribute(k, v)) == (here || rest.contains(
            DiffModel::SetAttribute(k, v),
        ))) by {
            if keys_has_before(new, m, new[m].0) || last_val(old, new[m].0) != Some(new[m].1) {
                assert(cur =~= seq![DiffModel::SetAttribute(new[m].0, new[m].1)] + rest);
                if cur.contains(DiffModel::SetAttribute(k, v)) {
                    let p = choose|p: int|
                        0 <= p < cur.len() && cur[p] == DiffModel::SetAttribute(k, v);
                    if p > 0 {
                        assert(rest[p - 1] == DiffModel::SetAttribute(k, v));
                        assert(rest.contains(DiffModel::SetAttribute(k, v)));
                    }
                }
                if here || rest.contains(DiffModel::SetAttribute(k, v)) {
                    if here {
                        assert(cur[0] == DiffModel::SetAttribute(k, v));
                    } else {
                        let p = choose|p: int|
                            0 <= p < rest.len() && rest[p] == DiffModel::SetAttribute(k, v);
                        assert(cur[p + 1] == DiffModel::SetAttribute(k, v));
                    }
                }
            } else {
                assert(cur == rest);
                assert(!here);
            }
        }
        if cur.contains(DiffModel::SetAttribute(k, v)) {
            if here {
                assert(m <= m < new.len() && new[m] == (k, v) && (keys_has_before(new, m, k)
                    || last_val(old, k) != Some(v)));
            }
        }
    } else {
        assert(!set_attr_edits(old, new, m).contains(DiffModel::SetAttribute(k, v)));
    }
}

/// Which `RemoveAttribute` edits the removal phase emits, from
/// position `m` on: exactly one for each distinct old key that no new
/// attribute carries.
proof fn lemma_remove_attr_edits_member(
    old: Seq<(Seq<char>, AttrModel)>,
    new: Seq<(Seq<char>, AttrModel)>,
    m: int,
    k: Seq<char>,
)
    requires
        0 <= m <= old.len(),
    ensures
        remove_attr_edits(old, new, m).contains(DiffModel::RemoveAttribute(k)) <==> exists|j: int|
            m <= j < old.len() && old[j].0 == k && !keys_has_before(old, j, k) && !keys_has(new, k),
    decreases old.len() - m,
{
    if m < old.len() {
        lemma_remove_attr_edits_member(old, new, m + 1, k);
        let cur = remove_attr_edits(old, new, m);
        let rest = remove_attr_edits(old, new, m + 1);
        let here = old[m].0 == k && !keys_has_before(old, m, k) && !keys_has(new, k);
        assert(cur.contains(DiffModel::RemoveAttribute(k)) == (here || rest.contains(
            DiffModel::RemoveAttribute(k),
        ))) by {
            if !keys_has_before(old, m, old[m].0) && !keys_has(new, old[m].0) {
                assert(cur =~= seq![DiffModel::RemoveAttribute(old[m].0)] + rest);
                if cur.contains(DiffModel::RemoveAttribute(k)) {
                    let p = choose|p: int|
                        0 <= p < cur.len() && cur[p] == DiffModel::RemoveAttribute(k);
                    if p > 0 {
                        assert(rest[p - 1] == DiffModel::RemoveAttribute(k));
                        assert(rest.contains(DiffModel::RemoveAttribute(k)));
                    }
                }
                if here || rest.contains(DiffModel::RemoveAttribute(k)) {
                    if here {
                        assert(cur[0] == DiffModel::RemoveAttribute(k));
                    } else {
                        let p = choose|p: int|
                            0 <= p < rest.len() && rest[p] == DiffModel::RemoveAttribute(k);
                        assert(cur[p + 1] == DiffModel::RemoveAttribute(k));
                    }
                }
            } else {
                assert(cur == rest);
                assert(!here);
            }
        }
        if cur.contains(DiffModel::RemoveAttribute(k)) {
            if here {
                assert(m <= m < old.len() && old[m].0 == k && !keys_has_before(old, m, k)
                    && !keys_has(new, k));
            }
        }
    } else {
        assert(!remove_attr_edits(old, new, m).contains(DiffModel::RemoveAttribute(k)));
    }
}

/// An element of a concatenation lies in one of the parts.
proof fn lemma_concat_contains(x: Seq<DiffModel>, y: Seq<DiffModel>, d: DiffModel)
    ensures
        (x + y).contains(d) <==> x.contains(d) || y.contains(d),
{
    if (x + y).contains(d) {
        let p = choose|p: int| 0 <= p < (x + y).len() && (x + y)[p] == d;
        if p < x.len() {
            assert(x[p] == d);
        } else {
            assert(y[p - x.len()] == d);
        }
    }
    if x.contains(d) {
        let p = choose|p: int| 0 <= p < x.len() && x[p] == d;
        assert((x + y)[p] == d);
    }
    if y.contains(d) {
        let p = choose|p: int| 0 <= p < y.len() && y[p] == d;
        assert((x + y)[p + x.len()] == d);
    }
}

/// Attribute round-trip, in general: with distinct keys on both sides,
/// the reconciliation sets exactly the new attributes whose key is
/// absent from the old mapping or carries a changed value, and removes
/// exactly the old keys that the new list no longer carries — and
/// never both for one key.
pub proof fn lemma_attribute_reconciliation(
    old: Seq<(Seq<char>, AttrModel)>,
    new: Seq<(Seq<char>, AttrModel)>,
    k: Seq<char>,
    v: AttrModel,
)
    requires
        keys_unique(old),
        keys_unique(new),
    ensures
        crate::model::attrs_diff(old, new).contains(DiffModel::SetAttribute(k, v)) <==> (exists|
            j: int,
        |
            0 <= j < new.len() && new[j] == (k, v)) && last_val(old, k) != Some(v),
        crate::model::attrs_diff(old, new).contains(DiffModel::RemoveAttribute(k)) <==> keys_has(
            old,
            k,
        ) && !keys_has(new, k),
{
    lemma_set_attr_edits_member(old, new, 0, k, v);
    lemma_remove_attr_edits_member(old, new, 0, k);
    lemma_concat_contains(set_attr_edits(old, new, 0), remove_attr_edits(old, new, 0), DiffModel::SetAttribute(k, v));
    lemma_concat_contains(set_attr_edits(old, new, 0), remove_attr_edits(old, new, 0), DiffModel::RemoveAttribute(k));
    assert forall|j: int| 0 <= j < new.len() implies !keys_has_before(new, j, new[j].0) by {
        if keys_has_before(new, j, new[j].0) {
            let p = choose|p: int| 0 <= p < j && p < new.len() && new[p].0 == new[j].0;
            assert(new[p].0 != new[j].0);
        }
    }
    assert(!remove_attr_edits(old, new, 0).contains(DiffModel::SetAttribute(k, v))) by {
        lemma_remove_attr_edits_never_sets(old, new, 0, k, v);
    }
    assert(!set_attr_edits(old, new, 0).contains(DiffModel::RemoveAttribute(k))) by {
        lemma_set_attr_edits_never_removes(old, new, 0, k);
    }
    assert(keys_has(old, k) && !keys_has(new, k) ==> exists|j: int|
        0 <= j < old.len() && old[j].0 == k && !keys_has_before(old, j, k) && !keys_has(
            new,
            k,
        )) by {
        if keys_has(old, k) && !keys_has(new, k) {
            let j0 = choose|j: int| 0 <= j < old.len() && old[j].0 == k;
            assert(!keys_has_before(old, j0, k)) by {
                if keys_has_before(old, j0, k) {
                    let p = choose|p: int| 0 <= p < j0 && p < old.len() && old[p].0 == k;
                    assert(old[p].0 != old[j0].0);
                }
            }
            assert(0 <= j0 < old.len() && old[j0].0 == k && !keys_has_before(old, j0, k)
                && !keys_has(new, k));
        }
    }
    assert((exists|j: int|
        0 <= j < old.len() && old[j].0 == k && !keys_has_before(old, j, k) && !keys_has(new, k))
        ==> keys_has(old, k) && !keys_has(new, k)) by {
        if exists|j: int|
            0 <= j < old.len() && old[j].0 == k && !keys_has_before(old, j, k) && !keys_has(
                new,
                k,
            ) {
            let j0 = choose|j: int|
                0 <= j < old.len() && old[j].0 == k && !keys_has_before(old, j, k) && !keys_has(
                    new,
                    k,
                );
            assert(keys_has(old, k));
        }
    }
}

/// The removal phase emits no `SetAttribute`.
proof fn lemma_remove_attr_edits_never_sets(
    old: Seq<(Seq<char>, AttrModel)>,
    new: Seq<(Seq<char>, AttrModel)>,
    m: int,
    k: Seq<char>,
    v: AttrModel,
)
    requires
        0 <= m <= old.len(),
    ensures
        !remove_attr_edits(old, new, m).contains(DiffModel::SetAttribute(k, v)),
    decreases old.len() - m,
{
    if m < old.len() {
        lemma_remove_attr_edits_never_sets(old, new, m + 1, k, v);
        let rest = remove_attr_edits(old, new, m + 1);
        if !keys_has_before(old, m, old[m].0) && !keys_has(new, old[m].0) {
            let cur = seq![DiffModel::RemoveAttribute(old[m].0)] + rest;
            if cur.contains(DiffModel::SetAttribute(k, v)) {
                let p = choose|p: int| 0 <= p < cur.len() && cur[p] == DiffModel::SetAttribute(k, v);
                assert(p > 0);
                assert(rest[p - 1] == DiffModel::SetAttribute(k, v));
                assert(rest.contains(DiffModel::SetAttribute(k, v)));
            }
        }
    }
}

/// The set phase emits no `RemoveAttribute`.
proof fn lemma_set_attr_edits_never_removes(
    old: Seq<(Seq<char>, AttrModel)>,
    new: Seq<(Seq<char>, AttrModel)>,
    m: int,
    k: Seq<char>,
)
    requires
        0 <= m <= new.len(),
    ensures
        !set_attr_edits(old, new, m).contains(DiffModel::RemoveAttribute(k)),
    decreases new.len() - m,
{
    if m < new.len() {
        lemma_set_attr_edits_never_removes(old, new, m + 1, k);
        let rest = set_attr_edits(old, new, m + 1);
        if keys_has_before(new, m, new[m].0) || last_val(old, new[m].0) != Some(new[m].1) {
            let cur = seq![DiffModel::SetAttribute(new[m].0, new[m].1)] + rest;
            if cur.contains(DiffModel::RemoveAttribute(k)) {
                let p = choose|p: int|
                    0 <= p < cur.len() && cur[p] == DiffModel::RemoveAttribute(k);
                assert(p > 0);
                assert(rest[p - 1] == DiffModel::RemoveAttribute(k));
                assert(rest.contains(DiffModel::RemoveAttribute(k)));
            }
        }
    }
}

/// How many of the first `j` old children survive the keyed
/// pre-filter.
pub open spec fn survivors_before(
    olds: Seq<NodeModel>,
    news: Seq<NodeModel>,
    j: int,
) -> int
    decreases j,
{
    if j <= 0 {
        0
    } else {
        survivors_before(olds, news, j - 1) + if is_survivor(olds[j - 1], news) {
            1int
        } else {
            0int
        }
    }
}

/// Keyed removal, in general: an old child whose key no longer occurs
/// among the new children is removed by the pre-filter, at its
/// position in the tree as it stands once the children before it have
/// been filtered — the surviving-prefix count.
pub proof fn lemma_keyed_removal(olds: Seq<NodeModel>, news: Seq<NodeModel>, j: int, i: int)
    requires
        0 <= j < olds.len(),
        !is_survivor(olds[j], news),
    ensures
        keyed_removals(olds, news, i).contains(
            DiffModel::RemoveChild(i + survivors_before(olds, news, j)),
        ),
    decreases j,
{
    let target = DiffModel::RemoveChild(i + survivors_before(olds, news, j));
    if j == 0 {
        assert(keyed_removals(olds, news, i)[0] == target);
    } else {
        assert forall|p: int| 0 <= p < j implies #[trigger] olds.drop_first()[p - 1] == olds[p]
            || true by {}
        assert forall|p: int| 1 <= p <= j implies survivors_before(
            olds.drop_first(),
            news,
            p - 1,
        ) + (if is_survivor(olds[0], news) {
            1int
        } else {
            0int
        }) == survivors_before(olds, news, p) by {
            lemma_survivors_shift(olds, news, p);
        }
        if is_survivor(olds[0], news) {
            lemma_keyed_removal(olds.drop_first(), news, j - 1, i + 1);
            let rest = keyed_removals(olds.drop_first(), news, i + 1);
            assert(olds.drop_first()[j - 1] == olds[j]);
            assert(rest.contains(
                DiffModel::RemoveChild(i + 1 + survivors_before(olds.drop_first(), news, j - 1)),
            ));
            assert(i + 1 + survivors_before(olds.drop_first(), news, j - 1) == i
                + survivors_before(olds, news, j));
            assert(keyed_removals(olds, news, i) == rest);
        } else {
            lemma_keyed_removal(olds.drop_first(), news, j - 1, i);
            let rest = keyed_removals(olds.drop_first(), news, i);
            assert(olds.drop_first()[j - 1] == olds[j]);
            assert(i + survivors_before(olds.drop_first(), news, j - 1) == i + survivors_before(
                olds,
                news,
                j,
            ));
            let p = choose|p: int| 0 <= p < rest.len() && rest[p] == target;
            assert((seq![DiffModel::RemoveChild(i)] + rest)[p + 1] == target);
        }
    }
}

/// Dropping the first old child shifts the surviving-prefix count by
/// its own survival.
proof fn lemma_survivors_shift(olds: Seq<NodeModel>, news: Seq<NodeModel>, p: int)
    requires
        1 <= p <= olds.len(),
    ensures
        survivors_before(olds, news, p) == survivors_before(olds.drop_first(), news, p - 1) + (
        if is_survivor(olds[0], news) {
            1int
        } else {
            0int
        }),
    decreases p,
{
    assert(survivors_before(olds, news, p) == survivors_before(olds, news, p - 1) + (
    if is_survivor(olds[p - 1], news) {
        1int
    } else {
        0int
    }));
    if p > 1 {
        lemma_survivors_shift(olds, news, p - 1);
        assert(olds.drop_first()[p - 2] == olds[p - 1]);
        assert(survivors_before(olds.drop_first(), news, p - 1) == survivors_before(
            olds.drop_first(),
            news,
            p - 2,
        ) + (if is_survivor(olds.drop_first()[p - 2], news) {
            1int
        } else {
            0int
        }));
    } else {
        assert(survivors_before(olds, news, 0) == 0);
        assert(survivors_before(olds.drop_first(), news, 0) == 0);
    }
}

/// Render coalescing: from an idle instance, a first state change
/// requests exactly one render, a second state change before that
/// render runs requests none, and the pending render will observe the
/// state after the second change.
pub proof fn lemma_render_coalescing<S, H>(e: EnvModel<S, H>, s1: S, s2: S)
    requires
        !e.scheduled,
        s1 != e.state,
    ensures
        ({
            let (e1, r1) = step_set_state(e, s1);
            let (e2, r2) = step_set_state(e1, s2);
            &&& r1 == true
            &&& r2 == false
            &&& e2.state == s2
            &&& e2.scheduled
            &&& forall|vn: NodeModel, vm: Map<Seq<char>, H>|
                (#[trigger] step_render(e2, vn, vm)).0.state == s2
        }),
{
}

/// At-most-once handler firing: taking the same handler id twice in
/// succession finds nothing the second time and leaves the instance
/// unchanged.
pub proof fn lemma_handler_fires_once<S, H>(e: EnvModel<S, H>, id: Seq<char>)
    ensures
        ({
            let (e1, h1) = step_pop(e, id);
            let (e2, h2) = step_pop(e1, id);
            &&& h2 is None
            &&& e2 == e1
        }),
{
    let (e1, h1) = step_pop(e, id);
    assert(!e1.handlers.contains_key(id));
}

} // verus!
