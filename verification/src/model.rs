//! Mathematical models of the virtual tree and of the edit script that the
//! diff engine produces.  Every executable function of the diff engine is
//! specified as equal to one of the spec functions below.

use vstd::prelude::*;

verus! {

/// Model of an attribute value: text or flag.
pub enum AttrModel {
    Text(Seq<char>),
    Flag(bool),
}

/// Model of one tree node.
pub enum NodeModel {
    Text(Seq<char>),
    Elem(ElemModel),
    Null,
}

/// Model of a tagged element: name, ordered attributes, ordered
/// event-handler bindings (event kind, handler id) and ordered children.
pub struct ElemModel {
    pub name: Seq<char>,
    pub attributes: Seq<(Seq<char>, AttrModel)>,
    pub handlers: Seq<(Seq<char>, Seq<char>)>,
    pub children: Seq<NodeModel>,
}

/// Model of one edit instruction.
pub enum DiffModel {
    SetAttribute(Seq<char>, AttrModel),
    RemoveAttribute(Seq<char>),
    AddChild(int, NodeModel),
    ReplaceChild(int, NodeModel),
    RemoveChild(int),
    PatchChild(int, Seq<DiffModel>),
    SetHandler(Seq<char>, Seq<char>),
    RemoveHandler(Seq<char>, Seq<char>),
}

/// True when some pair in `s` carries the key `k`.
pub open spec fn keys_has<V>(s: Seq<(Seq<char>, V)>, k: Seq<char>) -> bool {
    exists|j: int| 0 <= j < s.len() && s[j].0 == k
}

/// True when some pair before position `j` carries the key `k`.
pub open spec fn keys_has_before<V>(s: Seq<(Seq<char>, V)>, j: int, k: Seq<char>) -> bool {
    exists|m: int| 0 <= m < j && m < s.len() && s[m].0 == k
}

/// The value of the last pair in `s` that carries the key `k`, if any.
/// The diff engine treats an attribute or handler list as a mapping in
/// which a later write to the same key wins.
pub open spec fn last_val<V>(s: Seq<(Seq<char>, V)>, k: Seq<char>) -> Option<V>
    decreases s.len(),
{
    if s.len() == 0 {
        None
    } else if s.last().0 == k {
        Some(s.last().1)
    } else {
        last_val(s.drop_last(), k)
    }
}

/// All keys in `s` are pairwise distinct.
pub open spec fn keys_unique<V>(s: Seq<(Seq<char>, V)>) -> bool {
    forall|j: int, m: int| 0 <= j < m < s.len() ==> s[j].0 != s[m].0
}

/// Removing a pair keeps the remaining keys pairwise distinct.
pub proof fn lemma_keys_unique_remove<V>(s: Seq<(Seq<char>, V)>, m: int)
    requires
        keys_unique(s),
        0 <= m < s.len(),
    ensures
        keys_unique(s.remove(m)),
{
    let t = s.remove(m);
    assert forall|j: int, p: int| 0 <= j < p < t.len() implies t[j].0 != t[p].0 by {
        let j0 = if j < m {
            j
        } else {
            j + 1
        };
        let p0 = if p < m {
            p
        } else {
            p + 1
        };
        assert(t[j] == s[j0]);
        assert(t[p] == s[p0]);
    }
}

/// The value of the first attribute named `"key"`, if any.
pub open spec fn find_key_attr(attrs: Seq<(Seq<char>, AttrModel)>) -> Option<AttrModel>
    decreases attrs.len(),
{
    if attrs.len() == 0 {
        None
    } else if attrs[0].0 == "key"@ {
        Some(attrs[0].1)
    } else {
        find_key_attr(attrs.drop_first())
    }
}

/// The reconciliation key of an element: the first attribute named
/// `"key"`, provided its value is text.
pub open spec fn elem_key(e: ElemModel) -> Option<Seq<char>> {
    match find_key_attr(e.attributes) {
        Some(AttrModel::Text(s)) => Some(s),
        _ => None,
    }
}

/// The reconciliation key of a node: only elements are keyed.
pub open spec fn node_key(n: NodeModel) -> Option<Seq<char>> {
    match n {
        NodeModel::Elem(e) => elem_key(e),
        _ => None,
    }
}

/// The `SetAttribute` edits for positions `j..` of the new attribute
/// list.  An edit is emitted unless the old mapping still holds the key
/// with an identical value: a key already consumed by an earlier new
/// position is gone from the old mapping, so a duplicate new key always
/// emits.
pub open spec fn set_attr_edits(
    old: Seq<(Seq<char>, AttrModel)>,
    new: Seq<(Seq<char>, AttrModel)>,
    j: int,
) -> Seq<DiffModel>
    decreases new.len() - j,
{
    if j < 0 || j >= new.len() {
        Seq::empty()
    } else {
        let k = new[j].0;
        let v = new[j].1;
        let rest = set_attr_edits(old, new, j + 1);
        if keys_has_before(new, j, k) || last_val(old, k) != Some(v) {
            seq![DiffModel::SetAttribute(k, v)] + rest
        } else {
            rest
        }
    }
}

/// The `RemoveAttribute` edits: one for each distinct old key that no
/// new attribute carries, in order of first occurrence in the old list.
pub open spec fn remove_attr_edits(
    old: Seq<(Seq<char>, AttrModel)>,
    new: Seq<(Seq<char>, AttrModel)>,
    j: int,
) -> Seq<DiffModel>
    decreases old.len() - j,
{
    if j < 0 || j >= old.len() {
        Seq::empty()
    } else {
        let k = old[j].0;
        let rest = remove_attr_edits(old, new, j + 1);
        if !keys_has_before(old, j, k) && !keys_has(new, k) {
            seq![DiffModel::RemoveAttribute(k)] + rest
        } else {
            rest
        }
    }
}

/// The full attribute reconciliation: sets first, then removals.
pub open spec fn attrs_diff(
    old: Seq<(Seq<char>, AttrModel)>,
    new: Seq<(Seq<char>, AttrModel)>,
) -> Seq<DiffModel> {
    set_attr_edits(old, new, 0) + remove_attr_edits(old, new, 0)
}

/// The `SetHandler` edits: one for every new binding, unconditionally —
/// handler identity is always considered changed.
pub open spec fn set_handler_edits(new: Seq<(Seq<char>, Seq<char>)>, j: int) -> Seq<DiffModel>
    decreases new.len() - j,
{
    if j < 0 || j >= new.len() {
        Seq::empty()
    } else {
        seq![DiffModel::SetHandler(new[j].0, new[j].1)] + set_handler_edits(new, j + 1)
    }
}

/// The `RemoveHandler` edits: one for each distinct old event kind that
/// no new binding carries, with the last old id written for that kind.
pub open spec fn remove_handler_edits(
    old: Seq<(Seq<char>, Seq<char>)>,
    new: Seq<(Seq<char>, Seq<char>)>,
    j: int,
) -> Seq<DiffModel>
    decreases old.len() - j,
{
    if j < 0 || j >= old.len() {
        Seq::empty()
    } else {
        let k = old[j].0;
        let rest = remove_handler_edits(old, new, j + 1);
        if !keys_has_before(old, j, k) && !keys_has(new, k) {
            seq![DiffModel::RemoveHandler(k, last_val(old, k)->Some_0)] + rest
        } else {
            rest
        }
    }
}

/// The full handler reconciliation: sets first, then removals.
pub open spec fn handlers_diff(
    old: Seq<(Seq<char>, Seq<char>)>,
    new: Seq<(Seq<char>, Seq<char>)>,
) -> Seq<DiffModel> {
    set_handler_edits(new, 0) + remove_handler_edits(old, new, 0)
}

/// The value of the last pair carrying `k`, located by position: if
/// `s[m]` carries `k` and no later pair does, that is the last write.
pub proof fn lemma_last_val_at<V>(s: Seq<(Seq<char>, V)>, k: Seq<char>, m: int)
    requires
        0 <= m < s.len(),
        s[m].0 == k,
        forall|p: int| m < p < s.len() ==> (#[trigger] s[p]).0 != k,
    ensures
        last_val(s, k) == Some(s[m].1),
    decreases s.len(),
{
    if m < s.len() - 1 {
        lemma_last_val_at(s.drop_last(), k, m);
    }
}

/// A key carried by no pair has no last write.
pub proof fn lemma_last_val_none<V>(s: Seq<(Seq<char>, V)>, k: Seq<char>)
    requires
        forall|p: int| 0 <= p < s.len() ==> (#[trigger] s[p]).0 != k,
    ensures
        last_val(s, k) is None,
    decreases s.len(),
{
    if s.len() > 0 {
        lemma_last_val_none(s.drop_last(), k);
    }
}

/// A key that some pair carries has a last write.
pub proof fn lemma_last_val_member<V>(s: Seq<(Seq<char>, V)>, m: int)
    requires
        0 <= m < s.len(),
    ensures
        last_val(s, s[m].0) is Some,
    decreases s.len(),
{
    if s.last().0 != s[m].0 {
        lemma_last_val_member(s.drop_last(), m);
    }
}

/// An element whose child count leaves room for the index arithmetic of
/// the reconciliation walk, recursively.  This is a machine limit: the
/// positional walk advances its index by at most two for each new
/// child.
pub open spec fn elem_fits(e: ElemModel) -> bool
    decreases e,
{
    &&& 2 * e.children.len() <= usize::MAX
    &&& children_fit(e.children)
}

/// Every node of the list fits, recursively.
pub open spec fn children_fit(s: Seq<NodeModel>) -> bool
    decreases s,
{
    s.len() == 0 || (node_fits(s[0]) && children_fit(s.drop_first()))
}

/// A node whose subtree fits, recursively.
pub open spec fn node_fits(n: NodeModel) -> bool
    decreases n,
{
    match n {
        NodeModel::Elem(e) => elem_fits(e),
        _ => true,
    }
}

/// Fitting is positional: every member of a fitting list fits.
pub proof fn lemma_children_fit_index(s: Seq<NodeModel>, j: int)
    requires
        children_fit(s),
        0 <= j < s.len(),
    ensures
        node_fits(s[j]),
    decreases j,
{
    if j > 0 {
        lemma_children_fit_index(s.drop_first(), j - 1);
    }
}

/// A list every member of which fits, fits.
pub proof fn lemma_children_fit_of_all(s: Seq<NodeModel>)
    requires
        forall|j: int| 0 <= j < s.len() ==> node_fits(#[trigger] s[j]),
    ensures
        children_fit(s),
    decreases s.len(),
{
    if s.len() > 0 {
        assert forall|j: int| 0 <= j < s.drop_first().len() implies node_fits(
            #[trigger] s.drop_first()[j],
        ) by {
            assert(s.drop_first()[j] == s[j + 1]);
        }
        lemma_children_fit_of_all(s.drop_first());
    }
}

/// True when some node of `news` carries the reconciliation key `k`.
pub open spec fn key_in_list(news: Seq<NodeModel>, k: Seq<char>) -> bool {
    exists|j: int| 0 <= j < news.len() && #[trigger] node_key(news[j]) == Some(k)
}

/// A child survives the keyed pre-filter when it is unkeyed or its key
/// still occurs among the new children.
pub open spec fn is_survivor(n: NodeModel, news: Seq<NodeModel>) -> bool {
    match node_key(n) {
        Some(k) => key_in_list(news, k),
        None => true,
    }
}

/// Phase one of child reconciliation: walk the old children and remove
/// every keyed child whose key is gone, at its position in the tree as
/// it stands after the removals emitted so far.
pub open spec fn keyed_removals(olds: Seq<NodeModel>, news: Seq<NodeModel>, i: int) -> Seq<
    DiffModel,
>
    decreases olds.len(),
{
    if olds.len() == 0 {
        Seq::empty()
    } else if !is_survivor(olds[0], news) {
        seq![DiffModel::RemoveChild(i)] + keyed_removals(olds.drop_first(), news, i)
    } else {
        keyed_removals(olds.drop_first(), news, i + 1)
    }
}

/// Both tree snapshots compared at position `i`.
pub open spec fn node_diff(a: NodeModel, b: NodeModel, i: int) -> Option<DiffModel>
    decreases a, b, 1int,
{
    match (a, b) {
        (NodeModel::Elem(ea), NodeModel::Elem(eb)) => elem_diff(ea, eb, i),
        (NodeModel::Text(ta), NodeModel::Text(tb)) => if ta == tb {
            None
        } else {
            Some(DiffModel::ReplaceChild(i, b))
        },
        (NodeModel::Null, NodeModel::Null) => None,
        (NodeModel::Null, _) => Some(DiffModel::AddChild(i, b)),
        (_, NodeModel::Null) => Some(DiffModel::RemoveChild(i)),
        _ => Some(DiffModel::ReplaceChild(i, b)),
    }
}

/// Two elements compared at position `i`: a key mismatch or a name
/// mismatch replaces the whole subtree; otherwise the three edit lists
/// are concatenated into one `PatchChild`, or no edit at all.
pub open spec fn elem_diff(a: ElemModel, b: ElemModel, i: int) -> Option<DiffModel>
    decreases a, b, 0int,
{
    if a.name != b.name || (elem_key(a) is Some && elem_key(b) is Some && elem_key(a)
        != elem_key(b)) {
        Some(DiffModel::ReplaceChild(i, NodeModel::Elem(b)))
    } else {
        let edits = attrs_diff(a.attributes, b.attributes) + handlers_diff(a.handlers, b.handlers)
            + children_diff(a.children, b.children, 0);
        if edits.len() == 0 {
            None
        } else {
            Some(DiffModel::PatchChild(i, edits))
        }
    }
}

/// Child-list reconciliation: keyed removals first, then a positional
/// walk that always restarts its index at zero.
pub open spec fn children_diff(olds: Seq<NodeModel>, news: Seq<NodeModel>, i: int) -> Seq<
    DiffModel,
>
    decreases olds, news, 3int,
{
    keyed_removals(olds, news, i) + child_pairs(olds, news, news, 0)
}

/// Phase two of child reconciliation: the surviving old children are
/// walked in lockstep against the new children.  Survivorship is judged
/// against the full new list `all_news`, decided once before the walk.
/// A removed keyed old child is skipped; once the old side is exhausted
/// every new child is added; once the new side is exhausted every
/// surviving old child is removed at the then-stable trailing index.
pub open spec fn child_pairs(
    olds: Seq<NodeModel>,
    news: Seq<NodeModel>,
    all_news: Seq<NodeModel>,
    i: int,
) -> Seq<DiffModel>
    decreases olds, news, 2int,
{
    if olds.len() > 0 && !is_survivor(olds[0], all_news) {
        child_pairs(olds.drop_first(), news, all_news, i)
    } else if news.len() == 0 {
        if olds.len() == 0 {
            Seq::empty()
        } else {
            seq![DiffModel::RemoveChild(i)] + child_pairs(olds.drop_first(), news, all_news, i)
        }
    } else if olds.len() == 0 {
        seq![DiffModel::AddChild(i, news[0])] + child_pairs(olds, news.drop_first(), all_news, i + 2)
    } else {
        match node_diff(olds[0], news[0], i) {
            None => child_pairs(olds.drop_first(), news.drop_first(), all_news, i + 1),
            Some(d) => if d is RemoveChild {
                seq![d] + child_pairs(olds.drop_first(), news.drop_first(), all_news, i)
            } else {
                seq![d] + child_pairs(olds.drop_first(), news.drop_first(), all_news, i + 1)
            },
        }
    }
}

} // verus!
