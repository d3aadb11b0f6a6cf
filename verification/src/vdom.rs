//! The virtual tree: executable node, element, attribute and edit types,
//! each abstracted by a model from `crate::model`, and the structural
//! diff engine proved equal to the model-level reconciliation.

use vstd::prelude::*;

use crate::model::{
    attrs_diff, child_pairs, children_diff, children_fit, elem_diff, elem_fits, elem_key,
    find_key_attr, handlers_diff, is_survivor, key_in_list, keyed_removals, keys_has,
    keys_has_before, last_val,
    lemma_children_fit_index, lemma_last_val_at, lemma_last_val_none, node_diff, node_fits,
    node_key, set_attr_edits, set_handler_edits, remove_attr_edits, remove_handler_edits,
    AttrModel, DiffModel, ElemModel, NodeModel,
};

verus! {

/// A primitive attribute value: text or flag.
#[derive(Debug)]
pub enum AttributeValue {
    String(String),
    Bool(bool),
}

/// An attribute: key and value.
pub type Attribute = (String, AttributeValue);

/// An event-handler binding: event kind and handler id.
pub type Handler = (String, String);

/// One node of the virtual tree: a text leaf, a tagged element, or the
/// explicit "renders nothing" placeholder.
#[derive(Debug, PartialEq)]
pub enum Node {
    Text(String),
    Element(Element),
    Null,
}

/// A tagged node: name, ordered attributes, ordered event-handler
/// bindings and ordered children.
#[derive(Debug, PartialEq)]
pub struct Element {
    pub name: String,
    pub attributes: Vec<Attribute>,
    pub handlers: Vec<Handler>,
    pub children: Vec<Node>,
}

/// One primitive edit instruction of a patch.
#[derive(Debug, PartialEq)]
pub enum Diff {
    SetAttribute(String, AttributeValue),
    RemoveAttribute(String),
    AddChild(usize, Node),
    ReplaceChild(usize, Node),
    RemoveChild(usize),
    PatchChild(usize, Vec<Diff>),
    SetHandler(String, String),
    RemoveHandler(String, String),
}

/// Model of an attribute value.
pub open spec fn attr_model(v: AttributeValue) -> AttrModel {
    match v {
        AttributeValue::String(s) => AttrModel::Text(s@),
        AttributeValue::Bool(b) => AttrModel::Flag(b),
    }
}

/// Model of an attribute list.
pub open spec fn attrs_model(s: Seq<Attribute>) -> Seq<(Seq<char>, AttrModel)> {
    Seq::new(s.len(), |j: int| (s[j].0@, attr_model(s[j].1)))
}

/// Model of a handler list.
pub open spec fn handlers_model(s: Seq<Handler>) -> Seq<(Seq<char>, Seq<char>)> {
    Seq::new(s.len(), |j: int| (s[j].0@, s[j].1@))
}

/// Model of one node.
pub open spec fn node_model(n: Node) -> NodeModel
    decreases n,
{
    match n {
        Node::Text(s) => NodeModel::Text(s@),
        Node::Element(e) => NodeModel::Elem(elem_model(e)),
        Node::Null => NodeModel::Null,
    }
}

/// Model of one element.
pub open spec fn elem_model(e: Element) -> ElemModel
    decreases e,
{
    ElemModel {
        name: e.name@,
        attributes: attrs_model(e.attributes@),
        handlers: handlers_model(e.handlers@),
        children: nodes_model(e.children@),
    }
}

/// Model of a child list.
pub open spec fn nodes_model(s: Seq<Node>) -> Seq<NodeModel>
    decreases s,
{
    if s.len() == 0 {
        Seq::empty()
    } else {
        seq![node_model(s[0])] + nodes_model(s.drop_first())
    }
}

/// Model of one edit instruction.
pub open spec fn diff_model(d: Diff) -> DiffModel
    decreases d,
{
    match d {
        Diff::SetAttribute(k, v) => DiffModel::SetAttribute(k@, attr_model(v)),
        Diff::RemoveAttribute(k) => DiffModel::RemoveAttribute(k@),
        Diff::AddChild(i, n) => DiffModel::AddChild(i as int, node_model(n)),
        Diff::ReplaceChild(i, n) => DiffModel::ReplaceChild(i as int, node_model(n)),
        Diff::RemoveChild(i) => DiffModel::RemoveChild(i as int),
        Diff::PatchChild(i, ds) => DiffModel::PatchChild(i as int, diffs_model(ds@)),
        Diff::SetHandler(k, id) => DiffModel::SetHandler(k@, id@),
        Diff::RemoveHandler(k, id) => DiffModel::RemoveHandler(k@, id@),
    }
}

/// Model of an edit list.
pub open spec fn diffs_model(s: Seq<Diff>) -> Seq<DiffModel>
    decreases s,
{
    if s.len() == 0 {
        Seq::empty()
    } else {
        seq![diff_model(s[0])] + diffs_model(s.drop_first())
    }
}

/// A child-list model indexes like the list it models.
pub broadcast proof fn lemma_nodes_model_len(s: Seq<Node>)
    ensures
        (#[trigger] nodes_model(s)).len() == s.len(),
    decreases s.len(),
{
    if s.len() > 0 {
        lemma_nodes_model_len(s.drop_first());
    }
}

/// A child-list model holds, position by position, the node models.
pub broadcast proof fn lemma_nodes_model_index(s: Seq<Node>, j: int)
    requires
        0 <= j < s.len(),
    ensures
        #[trigger] nodes_model(s)[j] == node_model(s[j]),
    decreases j,
{
    lemma_nodes_model_len(s.drop_first());
    if j > 0 {
        lemma_nodes_model_index(s.drop_first(), j - 1);
    }
}

/// An edit-list model indexes like the list it models.
pub broadcast proof fn lemma_diffs_model_len(s: Seq<Diff>)
    ensures
        (#[trigger] diffs_model(s)).len() == s.len(),
    decreases s.len(),
{
    if s.len() > 0 {
        lemma_diffs_model_len(s.drop_first());
    }
}

/// An edit-list model holds, position by position, the edit models.
pub broadcast proof fn lemma_diffs_model_index(s: Seq<Diff>, j: int)
    requires
        0 <= j < s.len(),
    ensures
        #[trigger] diffs_model(s)[j] == diff_model(s[j]),
    decreases j,
{
    lemma_diffs_model_len(s.drop_first());
    if j > 0 {
        lemma_diffs_model_index(s.drop_first(), j - 1);
    }
}

/// Model of an optional edit.
pub open spec fn opt_diff_model(d: Option<Diff>) -> Option<DiffModel> {
    match d {
        Some(d) => Some(diff_model(d)),
        None => None,
    }
}

impl View for AttributeValue {
    type V = AttrModel;

    open spec fn view(&self) -> AttrModel {
        attr_model(*self)
    }
}

impl View for Node {
    type V = NodeModel;

    open spec fn view(&self) -> NodeModel {
        node_model(*self)
    }
}

impl View for Element {
    type V = ElemModel;

    open spec fn view(&self) -> ElemModel {
        elem_model(*self)
    }
}

impl View for Diff {
    type V = DiffModel;

    open spec fn view(&self) -> DiffModel {
        diff_model(*self)
    }
}

/// Appending one edit appends its model.
pub broadcast proof fn lemma_diffs_model_push(s: Seq<Diff>, d: Diff)
    ensures
        #[trigger] diffs_model(s.push(d)) == diffs_model(s).push(diff_model(d)),
{
    broadcast use {lemma_diffs_model_len, lemma_diffs_model_index};

    assert(diffs_model(s.push(d)) =~= diffs_model(s).push(diff_model(d)));
}

/// Appending one node appends its model.
pub broadcast proof fn lemma_nodes_model_push(s: Seq<Node>, n: Node)
    ensures
        #[trigger] nodes_model(s.push(n)) == nodes_model(s).push(node_model(n)),
{
    broadcast use {lemma_nodes_model_len, lemma_nodes_model_index};

    assert(nodes_model(s.push(n)) =~= nodes_model(s).push(node_model(n)));
}

/// A single edit models to a single edit.
pub broadcast proof fn lemma_diffs_model_single(d: Diff)
    ensures
        #[trigger] diffs_model(seq![d]) == seq![diff_model(d)],
{
    assert(seq![d].drop_first() =~= Seq::<Diff>::empty());
    assert(seq![diff_model(d)] + diffs_model(seq![d].drop_first()) =~= seq![diff_model(d)]);
}

/// Concatenating edit lists concatenates their models.
pub broadcast proof fn lemma_diffs_model_concat(x: Seq<Diff>, y: Seq<Diff>)
    ensures
        #[trigger] diffs_model(x + y) == diffs_model(x) + diffs_model(y),
{
    broadcast use {lemma_diffs_model_len, lemma_diffs_model_index};

    assert(diffs_model(x + y) =~= diffs_model(x) + diffs_model(y));
}

impl Clone for Diff {
    /// The copy has the same model as the value it was made from.
    #[verifier::loop_isolation(false)]
    fn clone(&self) -> (r: Diff)
        ensures
            r@ == self@,
        decreases *self,
    {
        match self {
            Diff::SetAttribute(k, v) => Diff::SetAttribute(k.clone(), v.clone()),
            Diff::RemoveAttribute(k) => Diff::RemoveAttribute(k.clone()),
            Diff::AddChild(i, n) => Diff::AddChild(*i, n.clone()),
            Diff::ReplaceChild(i, n) => Diff::ReplaceChild(*i, n.clone()),
            Diff::RemoveChild(i) => Diff::RemoveChild(*i),
            Diff::PatchChild(i, ds) => {
                let mut out: Vec<Diff> = Vec::new();
                let mut j: usize = 0;
                while j < ds.len()
                    invariant
                        j <= ds@.len(),
                        out@.len() == j,
                        forall|m: int| 0 <= m < j ==> (#[trigger] out@[m])@ == (ds@[m])@,
                    decreases ds@.len() - j,
                {
                    proof {
                        assert(decreases_to!(*self => *ds));
                        assert(decreases_to!(*ds => ds@));
                        assert(decreases_to!(ds@ => ds@[j as int]));
                    }
                    out.push(ds[j].clone());
                    j += 1;
                }
                proof {
                    broadcast use {lemma_diffs_model_len, lemma_diffs_model_index};

                    assert(diffs_model(out@) =~= diffs_model(ds@));
                }
                Diff::PatchChild(*i, out)
            },
            Diff::SetHandler(k, id) => Diff::SetHandler(k.clone(), id.clone()),
            Diff::RemoveHandler(k, id) => Diff::RemoveHandler(k.clone(), id.clone()),
        }
    }
}

impl PartialEq for AttributeValue {
    /// Structural equality of attribute values.
    fn eq(&self, other: &AttributeValue) -> (r: bool) {
        match self {
            AttributeValue::String(a) => match other {
                AttributeValue::String(b) => *a == *b,
                AttributeValue::Bool(_) => false,
            },
            AttributeValue::Bool(a) => match other {
                AttributeValue::String(_) => false,
                AttributeValue::Bool(b) => *a == *b,
            },
        }
    }
}

impl vstd::std_specs::cmp::PartialEqSpecImpl for AttributeValue {
    open spec fn obeys_eq_spec() -> bool {
        true
    }

    open spec fn eq_spec(&self, other: &AttributeValue) -> bool {
        self@ == other@
    }
}

impl Eq for AttributeValue {

}

impl From<String> for AttributeValue {
    /// Text becomes a text attribute value.
    fn from(s: String) -> (r: AttributeValue) {
        AttributeValue::String(s)
    }
}

impl vstd::std_specs::convert::FromSpecImpl<String> for AttributeValue {
    open spec fn obeys_from_spec() -> bool {
        true
    }

    open spec fn from_spec(s: String) -> AttributeValue {
        AttributeValue::String(s)
    }
}

impl From<bool> for AttributeValue {
    /// A flag becomes a flag attribute value.
    fn from(b: bool) -> (r: AttributeValue) {
        AttributeValue::Bool(b)
    }
}

impl vstd::std_specs::convert::FromSpecImpl<bool> for AttributeValue {
    open spec fn obeys_from_spec() -> bool {
        true
    }

    open spec fn from_spec(b: bool) -> AttributeValue {
        AttributeValue::Bool(b)
    }
}

impl Clone for AttributeValue {
    /// The copy has the same model as the value it was made from.
    fn clone(&self) -> (r: AttributeValue)
        ensures
            r@ == self@,
    {
        match self {
            AttributeValue::String(s) => AttributeValue::String(s.clone()),
            AttributeValue::Bool(b) => AttributeValue::Bool(*b),
        }
    }
}

impl Element {
    /// Assemble an element from its four parts.
    pub fn new(
        name: String,
        attributes: Vec<Attribute>,
        handlers: Vec<Handler>,
        children: Vec<Node>,
    ) -> (r: Element)
        ensures
            r@ == (ElemModel {
                name: name@,
                attributes: attrs_model(attributes@),
                handlers: handlers_model(handlers@),
                children: nodes_model(children@),
            }),
    {
        Element { name, attributes, handlers, children }
    }

    /// The tag name.
    pub fn name(&self) -> (r: &str)
        ensures
            r@ == self@.name,
    {
        self.name.as_str()
    }

    /// The ordered attribute list.
    pub fn attributes(&self) -> (r: &[Attribute])
        ensures
            attrs_model(r@) == self@.attributes,
    {
        self.attributes.as_slice()
    }

    /// The ordered event-handler bindings.
    pub fn handlers(&self) -> (r: &[Handler])
        ensures
            handlers_model(r@) == self@.handlers,
    {
        self.handlers.as_slice()
    }

    /// The ordered child list.
    pub fn children(&self) -> (r: &[Node])
        ensures
            nodes_model(r@) == self@.children,
    {
        self.children.as_slice()
    }

    /// The reconciliation key: the first attribute named `"key"`,
    /// provided its value is text.
    pub fn get_key(&self) -> (r: Option<String>)
        ensures
            match r {
                Some(s) => elem_key(self@) == Some(s@),
                None => elem_key(self@) is None,
            },
    {
        let ghost am = attrs_model(self.attributes@);
        let key_name: String = "key".to_owned();
        proof {
            assert(am.skip(0) =~= am);
        }
        let mut j: usize = 0;
        while j < self.attributes.len()
            invariant
                j <= self.attributes@.len(),
                am == attrs_model(self.attributes@),
                key_name@ == "key"@,
                find_key_attr(am) == find_key_attr(am.skip(j as int)),
            decreases self.attributes@.len() - j,
        {
            proof {
                assert(am[j as int] == (self.attributes@[j as int].0@, attr_model(
                    self.attributes@[j as int].1,
                )));
                assert(am.skip(j as int)[0] == am[j as int]);
                assert(am.skip(j as int).drop_first() =~= am.skip(j as int + 1));
            }
            if self.attributes[j].0 == key_name {
                match &self.attributes[j].1 {
                    AttributeValue::String(s) => {
                        return Some(s.clone());
                    },
                    AttributeValue::Bool(_) => {
                        return None;
                    },
                }
            }
            j += 1;
        }
        proof {
            assert(am.skip(j as int) =~= Seq::empty());
        }
        None
    }
}

impl Node {
    /// The reconciliation key of a node: only elements are keyed.
    pub fn get_key(&self) -> (r: Option<String>)
        ensures
            match r {
                Some(s) => node_key(self@) == Some(s@),
                None => node_key(self@) is None,
            },
    {
        match self {
            Node::Element(e) => e.get_key(),
            _ => None,
        }
    }
}

/// Does the key at position `j` occur among the keys before it?
fn attr_key_seen_before(list: &Vec<Attribute>, j: usize) -> (r: bool)
    requires
        j < list@.len(),
    ensures
        r == keys_has_before(attrs_model(list@), j as int, attrs_model(list@)[j as int].0),
{
    let ghost lm = attrs_model(list@);
    let mut m: usize = 0;
    while m < j
        invariant
            m <= j < list@.len(),
            lm == attrs_model(list@),
            forall|p: int| 0 <= p < m ==> (#[trigger] lm[p]).0 != lm[j as int].0,
        decreases j - m,
    {
        proof {
            assert(lm[m as int].0 == list@[m as int].0@);
            assert(lm[j as int].0 == list@[j as int].0@);
        }
        if list[m].0 == list[j].0 {
            return true;
        }
        m += 1;
    }
    false
}

/// Does any pair of the list carry the key `k`?
fn attrs_have_key(list: &Vec<Attribute>, k: &String) -> (r: bool)
    ensures
        r == keys_has(attrs_model(list@), k@),
{
    let ghost lm = attrs_model(list@);
    let mut m: usize = 0;
    while m < list.len()
        invariant
            m <= list@.len(),
            lm == attrs_model(list@),
            forall|p: int| 0 <= p < m ==> (#[trigger] lm[p]).0 != k@,
        decreases list@.len() - m,
    {
        proof {
            assert(lm[m as int].0 == list@[m as int].0@);
        }
        if list[m].0 == *k {
            return true;
        }
        m += 1;
    }
    false
}

/// The value of the last pair carrying `k`, scanned from the end.
fn attr_last_value<'a>(list: &'a Vec<Attribute>, k: &String) -> (r: Option<&'a AttributeValue>)
    ensures
        match r {
            Some(v) => last_val(attrs_model(list@), k@) == Some(v@),
            None => last_val(attrs_model(list@), k@) is None,
        },
{
    let ghost lm = attrs_model(list@);
    let mut m: usize = list.len();
    while m > 0
        invariant
            m <= list@.len(),
            lm == attrs_model(list@),
            forall|p: int| m <= p < list@.len() ==> (#[trigger] lm[p]).0 != k@,
        decreases m,
    {
        m -= 1;
        proof {
            assert(lm[m as int] == (list@[m as int].0@, attr_model(list@[m as int].1)));
        }
        if list[m].0 == *k {
            proof {
                lemma_last_val_at(lm, k@, m as int);
            }
            return Some(&list[m].1);
        }
    }
    proof {
        lemma_last_val_none(lm, k@);
    }
    None
}

/// Does the event kind at position `j` occur among the kinds before it?
fn handler_kind_seen_before(list: &Vec<Handler>, j: usize) -> (r: bool)
    requires
        j < list@.len(),
    ensures
        r == keys_has_before(handlers_model(list@), j as int, handlers_model(list@)[j as int].0),
{
    let ghost lm = handlers_model(list@);
    let mut m: usize = 0;
    while m < j
        invariant
            m <= j < list@.len(),
            lm == handlers_model(list@),
            forall|p: int| 0 <= p < m ==> (#[trigger] lm[p]).0 != lm[j as int].0,
        decreases j - m,
    {
        proof {
            assert(lm[m as int].0 == list@[m as int].0@);
            assert(lm[j as int].0 == list@[j as int].0@);
        }
        if list[m].0 == list[j].0 {
            return true;
        }
        m += 1;
    }
    false
}

/// Does any binding of the list carry the event kind `k`?
fn handlers_have_kind(list: &Vec<Handler>, k: &String) -> (r: bool)
    ensures
        r == keys_has(handlers_model(list@), k@),
{
    let ghost lm = handlers_model(list@);
    let mut m: usize = 0;
    while m < list.len()
        invariant
            m <= list@.len(),
            lm == handlers_model(list@),
            forall|p: int| 0 <= p < m ==> (#[trigger] lm[p]).0 != k@,
        decreases list@.len() - m,
    {
        proof {
            assert(lm[m as int].0 == list@[m as int].0@);
        }
        if list[m].0 == *k {
            return true;
        }
        m += 1;
    }
    false
}

/// The id of the last binding for kind `k`, scanned from the end.
fn handler_last_id<'a>(list: &'a Vec<Handler>, k: &String) -> (r: Option<&'a String>)
    ensures
        match r {
            Some(v) => last_val(handlers_model(list@), k@) == Some(v@),
            None => last_val(handlers_model(list@), k@) is None,
        },
{
    let ghost lm = handlers_model(list@);
    let mut m: usize = list.len();
    while m > 0
        invariant
            m <= list@.len(),
            lm == handlers_model(list@),
            forall|p: int| m <= p < list@.len() ==> (#[trigger] lm[p]).0 != k@,
        decreases m,
    {
        m -= 1;
        proof {
            assert(lm[m as int] == (list@[m as int].0@, list@[m as int].1@));
        }
        if list[m].0 == *k {
            proof {
                lemma_last_val_at(lm, k@, m as int);
            }
            return Some(&list[m].1);
        }
    }
    proof {
        lemma_last_val_none(lm, k@);
    }
    None
}

/// Does any node of the list carry the reconciliation key `k`?
fn node_list_has_key(news: &Vec<Node>, k: &String) -> (r: bool)
    ensures
        r == key_in_list(nodes_model(news@), k@),
{
    let ghost nm = nodes_model(news@);
    let mut m: usize = 0;
    while m < news.len()
        invariant
            m <= news@.len(),
            nm == nodes_model(news@),
            forall|p: int| 0 <= p < m ==> #[trigger] node_key(nm[p]) != Some(k@),
        decreases news@.len() - m,
    {
        proof {
            broadcast use {lemma_nodes_model_len, lemma_nodes_model_index};

            assert(nm[m as int] == node_model(news@[m as int]));
        }
        let found = match news[m].get_key() {
            Some(s) => s == *k,
            None => false,
        };
        if found {
            proof {
                assert(node_key(nm[m as int]) == Some(k@));
            }
            return true;
        }
        m += 1;
    }
    proof {
        broadcast use lemma_nodes_model_len;

    }
    false
}

/// Reconcile two attribute lists: a `SetAttribute` for every new
/// attribute that the old mapping does not already hold with the same
/// value, then a `RemoveAttribute` for every old key that is gone.
fn diff_attributes(a: &Vec<Attribute>, b: &Vec<Attribute>) -> (r: Vec<Diff>)
    ensures
        diffs_model(r@) == attrs_diff(attrs_model(a@), attrs_model(b@)),
{
    let ghost am = attrs_model(a@);
    let ghost bm = attrs_model(b@);
    let mut out: Vec<Diff> = Vec::new();
    proof {
        assert(diffs_model(out@) + set_attr_edits(am, bm, 0) =~= set_attr_edits(am, bm, 0));
    }
    let mut j: usize = 0;
    while j < b.len()
        invariant
            j <= b@.len(),
            am == attrs_model(a@),
            bm == attrs_model(b@),
            diffs_model(out@) + set_attr_edits(am, bm, j as int) == set_attr_edits(am, bm, 0),
        decreases b@.len() - j,
    {
        let seen = attr_key_seen_before(b, j);
        let mut emit: bool = true;
        if !seen {
            match attr_last_value(a, &b[j].0) {
                Some(v) => {
                    emit = !(*v == b[j].1);
                },
                None => {},
            }
        }
        proof {
            assert(bm[j as int] == (b@[j as int].0@, attr_model(b@[j as int].1)));
            assert(emit == (keys_has_before(bm, j as int, bm[j as int].0) || last_val(
                am,
                bm[j as int].0,
            ) != Some(bm[j as int].1)));
        }
        let ghost pre = out@;
        if emit {
            out.push(Diff::SetAttribute(b[j].0.clone(), b[j].1.clone()));
            proof {
                broadcast use lemma_diffs_model_push;

                let dm = DiffModel::SetAttribute(bm[j as int].0, bm[j as int].1);
                assert(diffs_model(out@) == diffs_model(pre).push(dm));
                assert(diffs_model(pre).push(dm) + set_attr_edits(am, bm, j as int + 1)
                    =~= diffs_model(pre) + (seq![dm] + set_attr_edits(am, bm, j as int + 1)));
            }
        }
        j += 1;
    }
    proof {
        assert(diffs_model(out@) + set_attr_edits(am, bm, b@.len() as int) =~= diffs_model(out@));
        assert(diffs_model(out@) + remove_attr_edits(am, bm, 0) == set_attr_edits(am, bm, 0)
            + remove_attr_edits(am, bm, 0));
    }
    let mut j: usize = 0;
    while j < a.len()
        invariant
            j <= a@.len(),
            am == attrs_model(a@),
            bm == attrs_model(b@),
            diffs_model(out@) + remove_attr_edits(am, bm, j as int) == set_attr_edits(am, bm, 0)
                + remove_attr_edits(am, bm, 0),
        decreases a@.len() - j,
    {
        proof {
            assert(am[j as int] == (a@[j as int].0@, attr_model(a@[j as int].1)));
        }
        let seen = attr_key_seen_before(a, j);
        let mut emit: bool = false;
        if !seen {
            emit = !attrs_have_key(b, &a[j].0);
        }
        proof {
            assert(emit == (!keys_has_before(am, j as int, am[j as int].0) && !keys_has(
                bm,
                am[j as int].0,
            )));
        }
        let ghost pre = out@;
        if emit {
            out.push(Diff::RemoveAttribute(a[j].0.clone()));
            proof {
                broadcast use lemma_diffs_model_push;

                let dm = DiffModel::RemoveAttribute(am[j as int].0);
                assert(diffs_model(out@) == diffs_model(pre).push(dm));
                assert(diffs_model(pre).push(dm) + remove_attr_edits(am, bm, j as int + 1)
                    =~= diffs_model(pre) + (seq![dm] + remove_attr_edits(am, bm, j as int + 1)));
            }
        }
        j += 1;
    }
    proof {
        assert(diffs_model(out@) + remove_attr_edits(am, bm, a@.len() as int)
            =~= diffs_model(out@));
    }
    out
}

/// Reconcile two handler lists: a `SetHandler` for every new binding,
/// unconditionally, then a `RemoveHandler` for every old event kind
/// that is gone, carrying its last written id.
fn diff_handlers(a: &Vec<Handler>, b: &Vec<Handler>) -> (r: Vec<Diff>)
    ensures
        diffs_model(r@) == handlers_diff(handlers_model(a@), handlers_model(b@)),
{
    let ghost am = handlers_model(a@);
    let ghost bm = handlers_model(b@);
    let mut out: Vec<Diff> = Vec::new();
    proof {
        assert(diffs_model(out@) + set_handler_edits(bm, 0) =~= set_handler_edits(bm, 0));
    }
    let mut j: usize = 0;
    while j < b.len()
        invariant
            j <= b@.len(),
            am == handlers_model(a@),
            bm == handlers_model(b@),
            diffs_model(out@) + set_handler_edits(bm, j as int) == set_handler_edits(bm, 0),
        decreases b@.len() - j,
    {
        proof {
            assert(bm[j as int] == (b@[j as int].0@, b@[j as int].1@));
        }
        let ghost pre = out@;
        out.push(Diff::SetHandler(b[j].0.clone(), b[j].1.clone()));
        proof {
            broadcast use lemma_diffs_model_push;

            let dm = DiffModel::SetHandler(bm[j as int].0, bm[j as int].1);
            assert(diffs_model(out@) == diffs_model(pre).push(dm));
            assert(diffs_model(pre).push(dm) + set_handler_edits(bm, j as int + 1)
                =~= diffs_model(pre) + (seq![dm] + set_handler_edits(bm, j as int + 1)));
        }
        j += 1;
    }
    proof {
        assert(diffs_model(out@) + set_handler_edits(bm, b@.len() as int) =~= diffs_model(out@));
        assert(diffs_model(out@) + remove_handler_edits(am, bm, 0) == set_handler_edits(bm, 0)
            + remove_handler_edits(am, bm, 0));
    }
    let mut j: usize = 0;
    while j < a.len()
        invariant
            j <= a@.len(),
            am == handlers_model(a@),
            bm == handlers_model(b@),
            diffs_model(out@) + remove_handler_edits(am, bm, j as int) == set_handler_edits(bm, 0)
                + remove_handler_edits(am, bm, 0),
        decreases a@.len() - j,
    {
        proof {
            assert(am[j as int] == (a@[j as int].0@, a@[j as int].1@));
        }
        let seen = handler_kind_seen_before(a, j);
        let mut emit: bool = false;
        if !seen {
            emit = !handlers_have_kind(b, &a[j].0);
        }
        proof {
            assert(emit == (!keys_has_before(am, j as int, am[j as int].0) && !keys_has(
                bm,
                am[j as int].0,
            )));
        }
        let ghost pre = out@;
        if emit {
            match handler_last_id(a, &a[j].0) {
                Some(id) => {
                    out.push(Diff::RemoveHandler(a[j].0.clone(), id.clone()));
                    proof {
                        broadcast use lemma_diffs_model_push;

                        let dm = DiffModel::RemoveHandler(
                            am[j as int].0,
                            last_val(am, am[j as int].0)->Some_0,
                        );
                        assert(diffs_model(out@) == diffs_model(pre).push(dm));
                        assert(diffs_model(pre).push(dm) + remove_handler_edits(
                            am,
                            bm,
                            j as int + 1,
                        ) =~= diffs_model(pre) + (seq![dm] + remove_handler_edits(
                            am,
                            bm,
                            j as int + 1,
                        )));
                    }
                },
                None => {
                    proof {
                        crate::model::lemma_last_val_member(am, j as int);
                        assert(false);
                    }
                },
            }
        }
        j += 1;
    }
    proof {
        assert(diffs_model(out@) + remove_handler_edits(am, bm, a@.len() as int)
            =~= diffs_model(out@));
    }
    out
}

impl Node {
    /// Compare two tree snapshots at position `i`: the returned edit,
    /// if any, transforms the rendered structure at that position into
    /// `b`.  Text is compared by value and never patched in place; a
    /// mismatch of node kinds always replaces the whole subtree.
    pub fn diff(a: Node, b: &Node, i: usize) -> (r: Option<Diff>)
        requires
            node_fits(b@),
        ensures
            opt_diff_model(r) == node_diff(a@, b@, i as int),
        decreases a, *b, 1int,
    {
        match a {
            Node::Element(ea) => match b {
                Node::Element(eb) => Element::diff(ea, eb, i),
                Node::Null => Some(Diff::RemoveChild(i)),
                Node::Text(_) => Some(Diff::ReplaceChild(i, b.clone())),
            },
            Node::Text(ta) => match b {
                Node::Text(tb) => if ta == *tb {
                    None
                } else {
                    Some(Diff::ReplaceChild(i, b.clone()))
                },
                Node::Null => Some(Diff::RemoveChild(i)),
                Node::Element(_) => Some(Diff::ReplaceChild(i, b.clone())),
            },
            Node::Null => match b {
                Node::Null => None,
                _ => Some(Diff::AddChild(i, b.clone())),
            },
        }
    }
}

impl Element {
    /// Compare two elements at position `i`.  A key mismatch or a name
    /// mismatch replaces the whole subtree; otherwise the attribute,
    /// handler and child reconciliations are concatenated into one
    /// `PatchChild`, or nothing when all three are empty.
    pub fn diff(a: Element, b: &Element, i: usize) -> (r: Option<Diff>)
        requires
            elem_fits(b@),
        ensures
            opt_diff_model(r) == elem_diff(a@, b@, i as int),
        decreases a, *b, 0int,
    {
        let ak = a.get_key();
        let bk = b.get_key();
        let keys_conflict = match ak {
            Some(x) => match bk {
                Some(y) => !(x == y),
                None => false,
            },
            None => false,
        };
        proof {
            assert(keys_conflict == (elem_key(a@) is Some && elem_key(b@) is Some && elem_key(a@)
                != elem_key(b@)));
        }
        if keys_conflict || !(a.name == b.name) {
            return Some(Diff::ReplaceChild(i, Node::Element(b.clone())));
        }
        let child_count = a.children.len();
        proof {
            broadcast use lemma_nodes_model_len;

            assert(child_count == a.children@.len());
            assert(decreases_to!(a => a.children));
            assert(decreases_to!(a.children => a.children@));
            assert(nodes_model(b.children@).len() == b.children@.len());
        }
        let mut edits = diff_attributes(&a.attributes, &b.attributes);
        let ghost ae = edits@;
        let mut hs = diff_handlers(&a.handlers, &b.handlers);
        let ghost he = hs@;
        edits.append(&mut hs);
        let mut cs = diff_children(a.children, &b.children, 0);
        let ghost ce = cs@;
        edits.append(&mut cs);
        proof {
            broadcast use {lemma_diffs_model_concat, lemma_diffs_model_len};

            assert(edits@ == (ae + he) + ce);
            assert(diffs_model(edits@) == (diffs_model(ae) + diffs_model(he)) + diffs_model(ce));
        }
        if edits.len() == 0 {
            None
        } else {
            Some(Diff::PatchChild(i, edits))
        }
    }
}

/// Reconcile two ordered child lists starting at tree position `i`:
/// keyed removals first, then the positional walk, whose index restarts
/// at zero.
pub fn diff_children(a: Vec<Node>, b: &Vec<Node>, i: usize) -> (r: Vec<Diff>)
    requires
        children_fit(nodes_model(b@)),
        2 * b@.len() <= usize::MAX,
        i + a@.len() <= usize::MAX,
    ensures
        diffs_model(r@) == children_diff(nodes_model(a@), nodes_model(b@), i as int),
    decreases a@, *b, 3int,
{
    let ghost om = nodes_model(a@);
    let ghost nm = nodes_model(b@);
    let mut out: Vec<Diff> = Vec::new();
    proof {
        broadcast use {lemma_nodes_model_len, lemma_nodes_model_index};

        assert(om.skip(0) =~= om);
        assert(diffs_model(out@) + keyed_removals(om, nm, i as int) =~= keyed_removals(
            om,
            nm,
            i as int,
        ));
    }
    let mut icur: usize = i;
    let mut j: usize = 0;
    while j < a.len()
        invariant
            j <= a@.len(),
            om == nodes_model(a@),
            nm == nodes_model(b@),
            i + a@.len() <= usize::MAX,
            i <= icur <= i + j,
            diffs_model(out@) + keyed_removals(om.skip(j as int), nm, icur as int)
                == keyed_removals(om, nm, i as int),
        decreases a@.len() - j,
    {
        proof {
            broadcast use {lemma_nodes_model_len, lemma_nodes_model_index};

            assert(om.skip(j as int)[0] == om[j as int]);
            assert(om.skip(j as int).drop_first() =~= om.skip(j as int + 1));
        }
        let mut survivor = true;
        match a[j].get_key() {
            Some(k) => {
                survivor = node_list_has_key(b, &k);
            },
            None => {},
        }
        proof {
            assert(survivor == is_survivor(om[j as int], nm));
        }
        if survivor {
            icur += 1;
        } else {
            let ghost pre = out@;
            out.push(Diff::RemoveChild(icur));
            proof {
                broadcast use lemma_diffs_model_push;

                let dm = DiffModel::RemoveChild(icur as int);
                assert(diffs_model(pre).push(dm) + keyed_removals(
                    om.skip(j as int + 1),
                    nm,
                    icur as int,
                ) =~= diffs_model(pre) + (seq![dm] + keyed_removals(
                    om.skip(j as int + 1),
                    nm,
                    icur as int,
                )));
            }
        }
        j += 1;
    }
    proof {
        broadcast use lemma_nodes_model_len;

        assert(om.skip(a@.len() as int) =~= Seq::<NodeModel>::empty());
        assert(diffs_model(out@) + keyed_removals(Seq::<NodeModel>::empty(), nm, icur as int)
            =~= diffs_model(out@));
    }
    proof {
        assert(b@.skip(0) =~= b@);
    }
    let mut rest = child_pairs_exec(a, b, 0, 0);
    let ghost re = rest@;
    out.append(&mut rest);
    proof {
        broadcast use lemma_diffs_model_concat;

        assert(nm.skip(0) =~= nm);
    }
    out
}

/// The positional walk of phase two: pair each surviving old child with
/// the next new child from position `j` on, at tree position `i`.
fn child_pairs_exec(olds: Vec<Node>, news: &Vec<Node>, j: usize, i: usize) -> (r: Vec<Diff>)
    requires
        j <= news@.len(),
        children_fit(nodes_model(news@)),
        2 * news@.len() <= usize::MAX,
        i <= 2 * j,
    ensures
        diffs_model(r@) == child_pairs(
            nodes_model(olds@),
            nodes_model(news@).skip(j as int),
            nodes_model(news@),
            i as int,
        ),
    decreases olds@, news@.skip(j as int), 2int,
{
    let ghost om = nodes_model(olds@);
    let ghost nm = nodes_model(news@);
    let ghost nsuf = nodes_model(news@).skip(j as int);
    proof {
        broadcast use {lemma_nodes_model_len, lemma_nodes_model_index};

        if (j as int) < nm.len() {
            assert(nsuf[0] == nm[j as int]);
            assert(nsuf.drop_first() =~= nm.skip(j as int + 1));
        }
    }
    let mut survivor = true;
    if olds.len() > 0 {
        match olds[0].get_key() {
            Some(k) => {
                survivor = node_list_has_key(news, &k);
            },
            None => {},
        }
        proof {
            broadcast use {lemma_nodes_model_len, lemma_nodes_model_index};

            assert(survivor == is_survivor(om[0], nm));
        }
    }
    if olds.len() > 0 && !survivor {
        let mut olds2 = olds;
        let _removed = olds2.remove(0);
        proof {
            broadcast use {lemma_nodes_model_len, lemma_nodes_model_index};

            assert(olds2@ =~= olds@.drop_first());
            assert(nodes_model(olds2@) =~= om.drop_first());
        }
        let r = child_pairs_exec(olds2, news, j, i);
        proof {
            assert(child_pairs(om, nsuf, nm, i as int) == child_pairs(
                om.drop_first(),
                nsuf,
                nm,
                i as int,
            ));
        }
        return r;
    }
    if j == news.len() {
        if olds.len() == 0 {
            let r: Vec<Diff> = Vec::new();
            proof {
                broadcast use lemma_nodes_model_len;

                assert(nsuf =~= Seq::<NodeModel>::empty());
                assert(diffs_model(r@) =~= Seq::<DiffModel>::empty());
            }
            return r;
        }
        let mut olds2 = olds;
        let _removed = olds2.remove(0);
        proof {
            broadcast use {lemma_nodes_model_len, lemma_nodes_model_index};

            assert(olds2@ =~= olds@.drop_first());
            assert(nodes_model(olds2@) =~= om.drop_first());
        }
        let mut rest = child_pairs_exec(olds2, news, j, i);
        let ghost re = rest@;
        let mut out: Vec<Diff> = Vec::new();
        out.push(Diff::RemoveChild(i));
        out.append(&mut rest);
        proof {
            broadcast use {
                lemma_nodes_model_len,
                lemma_diffs_model_single,
                lemma_diffs_model_concat,
            };

            assert(nsuf =~= Seq::<NodeModel>::empty());
            assert(out@ =~= seq![Diff::RemoveChild(i)] + re);
            assert(child_pairs(om, nsuf, nm, i as int) == seq![
                DiffModel::RemoveChild(i as int),
            ] + child_pairs(om.drop_first(), nsuf, nm, i as int));
        }
        return out;
    }
    if olds.len() == 0 {
        let added = news[j].clone();
        proof {
            assert(news@.skip(j as int).subrange(
                1,
                news@.skip(j as int).len() as int,
            ) =~= news@.skip(j as int + 1));
            assert(decreases_to!(news@.skip(j as int) => news@.skip(j as int).subrange(1, news@.skip(j as int).len() as int)));
        }
        let mut rest = child_pairs_exec(olds, news, j + 1, i + 2);
        let ghost re = rest@;
        let mut out: Vec<Diff> = Vec::new();
        out.push(Diff::AddChild(i, added));
        out.append(&mut rest);
        proof {
            broadcast use {
                lemma_nodes_model_len,
                lemma_nodes_model_index,
                lemma_diffs_model_single,
                lemma_diffs_model_concat,
            };

            assert(om.len() == 0);
            assert(out@ =~= seq![Diff::AddChild(i, added)] + re);
            assert(diff_model(Diff::AddChild(i, added)) == DiffModel::AddChild(i as int, nsuf[0]));
            assert(child_pairs(om, nsuf, nm, i as int) == seq![
                DiffModel::AddChild(i as int, nsuf[0]),
            ] + child_pairs(om, nsuf.drop_first(), nm, i as int + 2));
        }
        return out;
    }
    let mut olds2 = olds;
    let head = olds2.remove(0);
    proof {
        broadcast use {lemma_nodes_model_len, lemma_nodes_model_index};

        assert(olds2@ =~= olds@.drop_first());
        assert(nodes_model(olds2@) =~= om.drop_first());
        crate::model::lemma_children_fit_index(nm, j as int);
        assert(head@ == om[0]);
    }
    let d = Node::diff(head, &news[j], i);
    match d {
        None => {
            let r = child_pairs_exec(olds2, news, j + 1, i + 1);
            proof {
                assert(child_pairs(om, nsuf, nm, i as int) == child_pairs(
                    om.drop_first(),
                    nsuf.drop_first(),
                    nm,
                    i as int + 1,
                ));
            }
            return r;
        },
        Some(dd) => {
            let is_rm = match &dd {
                Diff::RemoveChild(_) => true,
                _ => false,
            };
            let next_i = if is_rm {
                i
            } else {
                i + 1
            };
            let mut rest = child_pairs_exec(olds2, news, j + 1, next_i);
            let ghost re = rest@;
            let mut out: Vec<Diff> = Vec::new();
            out.push(dd);
            out.append(&mut rest);
            proof {
                broadcast use {lemma_diffs_model_single, lemma_diffs_model_concat};

                assert(out@ =~= seq![dd] + re);
                assert(child_pairs(om, nsuf, nm, i as int) == seq![diff_model(dd)] + child_pairs(
                    om.drop_first(),
                    nsuf.drop_first(),
                    nm,
                    next_i as int,
                ));
            }
            return out;
        },
    }
}

impl Clone for Node {
    /// The copy has the same model as the value it was made from.
    fn clone(&self) -> (r: Node)
        ensures
            r@ == self@,
        decreases *self,
    {
        match self {
            Node::Text(s) => Node::Text(s.clone()),
            Node::Element(e) => Node::Element(e.clone()),
            Node::Null => Node::Null,
        }
    }
}

impl Clone for Element {
    /// The copy has the same model as the value it was made from.
    fn clone(&self) -> (r: Element)
        ensures
            r@ == self@,
        decreases *self,
    {
        let mut attributes: Vec<Attribute> = Vec::new();
        let mut j: usize = 0;
        while j < self.attributes.len()
            invariant
                j <= self.attributes@.len(),
                attributes@.len() == j,
                forall|m: int|
                    #![trigger attributes@[m]]
                    0 <= m < j ==> attributes@[m].0@ == self.attributes@[m].0@ && (
                    attributes@[m].1)@ == (self.attributes@[m].1)@,
            decreases self.attributes@.len() - j,
        {
            let kv = &self.attributes[j];
            attributes.push((kv.0.clone(), kv.1.clone()));
            j += 1;
        }
        let mut handlers: Vec<Handler> = Vec::new();
        let mut j: usize = 0;
        while j < self.handlers.len()
            invariant
                j <= self.handlers@.len(),
                handlers@.len() == j,
                forall|m: int|
                    #![trigger handlers@[m]]
                    0 <= m < j ==> handlers@[m].0@ == self.handlers@[m].0@ && (handlers@[m].1)@
                        == (self.handlers@[m].1)@,
            decreases self.handlers@.len() - j,
        {
            let kv = &self.handlers[j];
            handlers.push((kv.0.clone(), kv.1.clone()));
            j += 1;
        }
        let mut children: Vec<Node> = Vec::new();
        let mut j: usize = 0;
        while j < self.children.len()
            invariant
                j <= self.children@.len(),
                children@.len() == j,
                forall|m: int| 0 <= m < j ==> (#[trigger] children@[m])@ == (self.children@[m])@,
            decreases self.children@.len() - j,
        {
            children.push(self.children[j].clone());
            j += 1;
        }
        let r = Element { name: self.name.clone(), attributes, handlers, children };
        proof {
            broadcast use {lemma_nodes_model_len, lemma_nodes_model_index};

            assert(attrs_model(r.attributes@) =~= attrs_model(self.attributes@));
            assert(handlers_model(r.handlers@) =~= handlers_model(self.handlers@));
            assert(nodes_model(r.children@) =~= nodes_model(self.children@));
        }
        r
    }
}

} // verus!
