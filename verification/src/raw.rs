//! Raw configuration trees as they arrive from nested object notation.
//!
//! A raw node carries a position, an optional comment, an optional external
//! id, and an ordered field map. A field's value is opaque structured data
//! unless the owning descriptor declares the field as a pin, in which case it
//! embeds one child node or an array of child nodes. Field order is the
//! authored order; it is kept deterministic end to end.

use vstd::prelude::*;
use crate::common::NodeId;
use crate::common::Position;

verus! {

/// One structured value of a raw tree. Numbers are carried as their literal
/// text: the core never interprets them, it only moves them through.
#[derive(Debug)]
pub enum RawValue {
    /// A nested object, the only shape that can embed a child node.
    Object(Box<RawNode>),
    Array(Vec<RawValue>),
    Text(String),
    Number(String),
    Bool(bool),
    Null,
}

/// A node of the raw tree: its editor position, bookkeeping fields, and the
/// authored field map in authored order.
#[derive(Debug)]
pub struct RawNode {
    pub position: Position,
    pub comment: Option<String>,
    pub node_id: Option<NodeId>,
    pub values: Vec<(String, RawValue)>,
}

/// The mathematical shape of a [`RawValue`].
pub enum ValView {
    Object(NodeView),
    Array(Seq<ValView>),
    Text(Seq<char>),
    Number(Seq<char>),
    Bool(bool),
    Null,
}

/// The mathematical shape of a [`RawNode`].
pub struct NodeView {
    pub position: Position,
    pub comment: Option<Seq<char>>,
    pub node_id: Option<Seq<char>>,
    pub fields: Seq<(Seq<char>, ValView)>,
}

pub open spec fn opt_string_view(s: Option<String>) -> Option<Seq<char>> {
    match s {
        Some(t) => Some(t@),
        None => None,
    }
}

pub open spec fn opt_node_id_view(s: Option<NodeId>) -> Option<Seq<char>> {
    match s {
        Some(t) => Some(t.0@),
        None => None,
    }
}

pub open spec fn val_view(v: RawValue) -> ValView
    decreases v,
{
    match v {
        RawValue::Object(n) => ValView::Object(node_view(*n)),
        RawValue::Array(a) => ValView::Array(vals_view(a@)),
        RawValue::Text(s) => ValView::Text(s@),
        RawValue::Number(s) => ValView::Number(s@),
        RawValue::Bool(b) => ValView::Bool(b),
        RawValue::Null => ValView::Null,
    }
}

pub open spec fn vals_view(a: Seq<RawValue>) -> Seq<ValView>
    decreases a,
{
    if a.len() == 0 {
        Seq::empty()
    } else {
        seq![val_view(a[0])] + vals_view(a.drop_first())
    }
}

pub open spec fn fields_view(s: Seq<(String, RawValue)>) -> Seq<(Seq<char>, ValView)>
    decreases s,
{
    if s.len() == 0 {
        Seq::empty()
    } else {
        seq![(s[0].0@, val_view(s[0].1))] + fields_view(s.drop_first())
    }
}

pub open spec fn node_view(n: RawNode) -> NodeView
    decreases n,
{
    NodeView {
        position: n.position,
        comment: opt_string_view(n.comment),
        node_id: opt_node_id_view(n.node_id),
        fields: fields_view(n.values@),
    }
}

/// `vals_view` maps the sequence element by element.
pub proof fn lemma_vals_view(a: Seq<RawValue>)
    ensures
        vals_view(a).len() == a.len(),
        forall|i: int| 0 <= i < a.len() ==> vals_view(a)[i] == val_view(a[i]),
    decreases a.len(),
{
    if a.len() > 0 {
        lemma_vals_view(a.drop_first());
    }
}

/// `fields_view` maps the sequence element by element.
pub proof fn lemma_fields_view(s: Seq<(String, RawValue)>)
    ensures
        fields_view(s).len() == s.len(),
        forall|i: int|
            0 <= i < s.len() ==> fields_view(s)[i] == (s[i].0@, val_view(s[i].1)),
    decreases s.len(),
{
    if s.len() > 0 {
        lemma_fields_view(s.drop_first());
    }
}

impl RawValue {
    /// A deep copy: the copy has the same mathematical shape as the original.
    #[verifier::loop_isolation(false)]
    pub fn duplicate(&self) -> (r: RawValue)
        ensures
            val_view(r) == val_view(*self),
        decreases *self,
    {
        match self {
            RawValue::Object(n) => RawValue::Object(Box::new(n.duplicate())),
            RawValue::Array(a) => {
                let mut out: Vec<RawValue> = Vec::new();
                let mut i: usize = 0;
                while i < a.len()
                    invariant
                        i <= a.len(),
                        out@.len() == i as int,
                        forall|j: int| 0 <= j < i ==> val_view(out@[j]) == val_view(a@[j]),
                    decreases a.len() - i,
                {
                    proof {
                        assert(decreases_to!(*self => *a));
                        assert(decreases_to!(*a => a@[i as int]));
                    }
                    let dup = a[i].duplicate();
                    out.push(dup);
                    i = i + 1;
                }
                proof {
                    lemma_vals_view(out@);
                    lemma_vals_view(a@);
                    assert(vals_view(out@) =~= vals_view(a@));
                }
                RawValue::Array(out)
            },
            RawValue::Text(s) => RawValue::Text(s.clone()),
            RawValue::Number(s) => RawValue::Number(s.clone()),
            RawValue::Bool(b) => RawValue::Bool(*b),
            RawValue::Null => RawValue::Null,
        }
    }
}

impl RawNode {
    /// A deep copy: the copy has the same mathematical shape as the original.
    #[verifier::loop_isolation(false)]
    pub fn duplicate(&self) -> (r: RawNode)
        ensures
            node_view(r) == node_view(*self),
        decreases *self,
    {
        let comment = match &self.comment {
            Some(c) => Some(c.clone()),
            None => None,
        };
        let node_id = match &self.node_id {
            Some(n) => Some(NodeId(n.0.clone())),
            None => None,
        };
        let mut values: Vec<(String, RawValue)> = Vec::new();
        let mut i: usize = 0;
        while i < self.values.len()
            invariant
                i <= self.values.len(),
                values@.len() == i as int,
                forall|j: int|
                    0 <= j < i ==> values@[j].0@ == self.values@[j].0@ && val_view(values@[j].1)
                        == val_view(self.values@[j].1),
            decreases self.values.len() - i,
        {
            proof {
                assert(decreases_to!(*self => self.values@[i as int].1));
            }
            let key = self.values[i].0.clone();
            let dup = self.values[i].1.duplicate();
            values.push((key, dup));
            i = i + 1;
        }
        proof {
            lemma_fields_view(values@);
            lemma_fields_view(self.values@);
            assert(fields_view(values@) =~= fields_view(self.values@));
        }
        RawNode { position: self.position, comment, node_id, values }
    }
}

} // verus!
