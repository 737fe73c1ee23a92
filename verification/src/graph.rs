//! The graph materializer.
//!
//! Materialization flattens a normalized tree into an explicit node list and
//! connection list for graph-style editing. Nodes are numbered depth-first
//! in pre-order — a node's id is its index in the list, so a parent's id is
//! always lower than every descendant's — and each child contributes one
//! connection from its parent's resolved output connector. Every connection
//! targets input connector 0 on the child: descriptors are constrained to
//! single-input shapes, a documented limitation of the format. Positions are
//! translated afterwards so the bounding box origin is (0, 0).

use vstd::prelude::*;
use crate::lookup::gfind;
use crate::nodes::Content;
use crate::nodes::NodeDescription;
use crate::nodes::find_desc;
use crate::nodes::find_descriptor;
use crate::nodes::lemma_find_desc;
use crate::nodes::spec_get_connector;
use crate::norm::NormView;
use crate::norm::NormalizedNode;
use crate::norm::kids_view;
use crate::norm::lemma_kids_view;
use crate::norm::lemma_outs_view;
use crate::norm::norm_view;
use crate::norm::outs_view;
use crate::raw::RawValue;
use crate::raw::ValView;
use crate::raw::fields_view;
use crate::raw::lemma_fields_view;
use crate::raw::val_view;
use crate::lookup::sfind;
use crate::workspace::Workspace;

verus! {

/// A finished connection of the materialized graph, by node ids and
/// connector indices.
#[derive(Debug, Clone, Copy, PartialEq, Eq, Structural, Default)]
pub struct HyConnection {
    pub from_node: usize,
    pub from_connector: usize,
    pub to_node: usize,
    pub to_connector: usize,
}

/// A connection as the interactive editor tracks it while rewiring.
#[derive(Debug, Clone, Copy, PartialEq, Eq, Structural, Default)]
pub struct Connection {
    pub from_node: usize,
    pub from_connector: usize,
    pub to_node: usize,
    pub to_connector: usize,
}

/// A half-made connection: one end still follows the pointer; drawing it is
/// the editor's business, outside the core.
#[derive(Debug, Clone, Copy, PartialEq, Eq, Structural, Default)]
pub struct ConnectionPartial {
    pub from_node: usize,
    pub from_connector: usize,
    pub reverse: bool,
}

/// A materialized node: its translated position, the descriptor it
/// instantiates (an index into the registry's descriptor list), and one
/// value per declared content field, in declared order.
#[derive(Debug)]
pub struct HyNodeProto {
    pub x: i64,
    pub y: i64,
    pub variant_index: usize,
    pub values: Vec<(String, RawValue)>,
}

/// An internal inconsistency between a normalized tree and the registry: a
/// bug, not bad input, surfaced without partial recovery.
#[derive(Debug)]
pub enum MaterializeError {
    /// The normalized node's variant id matches no registered descriptor.
    VariantNotRegistered { variant: String },
    /// An outputs key is not a declared output pin of the descriptor.
    OutputNotDeclared { key: String },
}

/// The mathematical shape of a [`MaterializeError`].
pub enum MatErrView {
    VariantNotRegistered(Seq<char>),
    OutputNotDeclared(Seq<char>),
}

pub open spec fn merr_view(e: MaterializeError) -> MatErrView {
    match e {
        MaterializeError::VariantNotRegistered { variant } => MatErrView::VariantNotRegistered(
            variant@,
        ),
        MaterializeError::OutputNotDeclared { key } => MatErrView::OutputNotDeclared(key@),
    }
}

/// The mathematical shape of a materialized node, before translation.
pub struct MatNodeView {
    pub x: int,
    pub y: int,
    pub variant_index: int,
    pub values: Seq<(Seq<char>, ValView)>,
}

/// The mathematical shape of a [`HyConnection`].
pub struct ConnView {
    pub from_node: int,
    pub from_connector: int,
    pub to_node: int,
    pub to_connector: int,
}

pub open spec fn proto_view(p: HyNodeProto) -> MatNodeView {
    MatNodeView {
        x: p.x as int,
        y: p.y as int,
        variant_index: p.variant_index as int,
        values: fields_view(p.values@),
    }
}

pub open spec fn protos_view(s: Seq<HyNodeProto>) -> Seq<MatNodeView> {
    Seq::new(s.len(), |i: int| proto_view(s[i]))
}

pub open spec fn conn_view(c: HyConnection) -> ConnView {
    ConnView {
        from_node: c.from_node as int,
        from_connector: c.from_connector as int,
        to_node: c.to_node as int,
        to_connector: c.to_connector as int,
    }
}

pub open spec fn conns_view(s: Seq<HyConnection>) -> Seq<ConnView> {
    Seq::new(s.len(), |i: int| conn_view(s[i]))
}

/// The content values of a materialized node: one entry per content field of
/// the descriptor, in declared order, taking the node's stored value when
/// present and the field's declared default otherwise.
pub open spec fn content_values(d: NodeDescription, values: Seq<(Seq<char>, ValView)>) -> Seq<
    (Seq<char>, ValView),
> {
    Seq::new(
        d.content@.len(),
        |j: int|
            (
                d.content@[j].id@,
                match gfind(values, d.content@[j].id@) {
                    Some(v) => v,
                    None => val_view(d.content@[j].default),
                },
            ),
    )
}

/// What materializing a normalized node yields, when its ids start at
/// `base`: the pre-order node records and the connections, in emission
/// order, or the invariant violation that stopped it.
pub open spec fn mat_spec(ws: Workspace, n: NormView, base: int) -> Result<
    (Seq<MatNodeView>, Seq<ConnView>),
    MatErrView,
>
    decreases n,
{
    match find_desc(ws.nodes@, n.variant) {
        None => Err(MatErrView::VariantNotRegistered(n.variant)),
        Some(di) => {
            let rec = MatNodeView {
                x: n.position.x as int,
                y: n.position.y as int,
                variant_index: di,
                values: content_values(ws.nodes@[di], n.values),
            };
            match mat_outputs(ws, ws.nodes@[di], n.outputs, base, base + 1) {
                Ok(nc) => Ok((seq![rec] + nc.0, nc.1)),
                Err(e) => Err(e),
            }
        },
    }
}

/// Materializes the outputs entries of one node, in entry order. `parent` is
/// the node's id and `next` the id the next emitted node will take.
pub open spec fn mat_outputs(
    ws: Workspace,
    d: NodeDescription,
    outs: Seq<(Seq<char>, Seq<NormView>)>,
    parent: int,
    next: int,
) -> Result<(Seq<MatNodeView>, Seq<ConnView>), MatErrView>
    decreases outs,
{
    if outs.len() == 0 {
        Ok((Seq::empty(), Seq::empty()))
    } else {
        match spec_get_connector(d, outs[0].0) {
            None => Err(MatErrView::OutputNotDeclared(outs[0].0)),
            Some(ci) => match mat_children(ws, outs[0].1, parent, ci, next) {
                Ok(nc) => match mat_outputs(
                    ws,
                    d,
                    outs.drop_first(),
                    parent,
                    next + nc.0.len(),
                ) {
                    Ok(nc2) => Ok((nc.0 + nc2.0, nc.1 + nc2.1)),
                    Err(e) => Err(e),
                },
                Err(e) => Err(e),
            },
        }
    }
}

/// Materializes the children under one outputs entry, in child order: each
/// child's subtree first, then the connection from the parent's connector
/// `ci` to the child — always to input connector 0.
pub open spec fn mat_children(
    ws: Workspace,
    kids: Seq<NormView>,
    parent: int,
    ci: int,
    next: int,
) -> Result<(Seq<MatNodeView>, Seq<ConnView>), MatErrView>
    decreases kids,
{
    if kids.len() == 0 {
        Ok((Seq::empty(), Seq::empty()))
    } else {
        match mat_spec(ws, kids[0], next) {
            Ok(nc) => {
                let link = ConnView {
                    from_node: parent,
                    from_connector: ci,
                    to_node: next,
                    to_connector: 0,
                };
                match mat_children(ws, kids.drop_first(), parent, ci, next + nc.0.len()) {
                    Ok(nc2) => Ok((nc.0 + nc2.0, (nc.1 + seq![link]) + nc2.1)),
                    Err(e) => Err(e),
                }
            },
            Err(e) => Err(e),
        }
    }
}

/// The node count of a normalized tree.
pub open spec fn tree_size(n: NormView) -> nat
    decreases n,
{
    1 + outs_size(n.outputs)
}

pub open spec fn outs_size(os: Seq<(Seq<char>, Seq<NormView>)>) -> nat
    decreases os,
{
    if os.len() == 0 {
        0
    } else {
        kids_size(os[0].1) + outs_size(os.drop_first())
    }
}

pub open spec fn kids_size(ks: Seq<NormView>) -> nat
    decreases ks,
{
    if ks.len() == 0 {
        0
    } else {
        tree_size(ks[0]) + kids_size(ks.drop_first())
    }
}

/// A successful materialization emits exactly the tree's node count, one
/// connection per node below the root, and only connections that run from a
/// lower id to a strictly higher one inside the emitted range — the ids form
/// a pre-order sequence, so a parent's id is below every descendant's.
pub proof fn lemma_mat_spec_facts(ws: Workspace, n: NormView, base: int)
    ensures
        match mat_spec(ws, n, base) {
            Ok(nc) => {
                &&& nc.0.len() == tree_size(n)
                &&& nc.1.len() == tree_size(n) - 1
                &&& forall|i: int|
                    0 <= i < nc.0.len() ==> i32::MIN <= (#[trigger] nc.0[i]).x <= i32::MAX
                        && i32::MIN <= nc.0[i].y <= i32::MAX
                &&& forall|k: int|
                    0 <= k < nc.1.len() ==> base <= (#[trigger] nc.1[k]).from_node
                        && nc.1[k].from_node < nc.1[k].to_node && base < nc.1[k].to_node < base
                        + nc.0.len() && nc.1[k].to_connector == 0
            },
            Err(_) => true,
        },
    decreases n,
{
    match find_desc(ws.nodes@, n.variant) {
        None => {},
        Some(di) => {
            lemma_mat_outputs_facts(ws, ws.nodes@[di], n.outputs, base, base + 1);
        },
    }
}

/// For the outputs part: as many connections as nodes are emitted, each from
/// this node or a descendant to a strictly higher id within range.
pub proof fn lemma_mat_outputs_facts(
    ws: Workspace,
    d: NodeDescription,
    outs: Seq<(Seq<char>, Seq<NormView>)>,
    parent: int,
    next: int,
)
    requires
        parent < next,
    ensures
        match mat_outputs(ws, d, outs, parent, next) {
            Ok(nc) => {
                &&& nc.0.len() == outs_size(outs)
                &&& nc.1.len() == nc.0.len()
                &&& forall|i: int|
                    0 <= i < nc.0.len() ==> i32::MIN <= (#[trigger] nc.0[i]).x <= i32::MAX
                        && i32::MIN <= nc.0[i].y <= i32::MAX
                &&& forall|k: int|
                    0 <= k < nc.1.len() ==> parent <= (#[trigger] nc.1[k]).from_node
                        && nc.1[k].from_node < nc.1[k].to_node && next <= nc.1[k].to_node < next
                        + nc.0.len() && nc.1[k].to_connector == 0
            },
            Err(_) => true,
        },
    decreases outs,
{
    if outs.len() > 0 {
        match spec_get_connector(d, outs[0].0) {
            None => {},
            Some(ci) => {
                lemma_mat_children_facts(ws, outs[0].1, parent, ci, next);
                match mat_children(ws, outs[0].1, parent, ci, next) {
                    Ok(nc) => {
                        lemma_mat_outputs_facts(ws, d, outs.drop_first(), parent, next + nc.0.len());
                    },
                    Err(_) => {},
                }
            },
        }
    }
}

/// For one child list: as many connections as nodes are emitted, each from
/// this node or a descendant to a strictly higher id within range.
pub proof fn lemma_mat_children_facts(
    ws: Workspace,
    kids: Seq<NormView>,
    parent: int,
    ci: int,
    next: int,
)
    requires
        parent < next,
    ensures
        match mat_children(ws, kids, parent, ci, next) {
            Ok(nc) => {
                &&& nc.0.len() == kids_size(kids)
                &&& nc.1.len() == nc.0.len()
                &&& forall|i: int|
                    0 <= i < nc.0.len() ==> i32::MIN <= (#[trigger] nc.0[i]).x <= i32::MAX
                        && i32::MIN <= nc.0[i].y <= i32::MAX
                &&& forall|k: int|
                    0 <= k < nc.1.len() ==> parent <= (#[trigger] nc.1[k]).from_node
                        && nc.1[k].from_node < nc.1[k].to_node && next <= nc.1[k].to_node < next
                        + nc.0.len() && nc.1[k].to_connector == 0
            },
            Err(_) => true,
        },
    decreases kids,
{
    if kids.len() > 0 {
        lemma_mat_spec_facts(ws, kids[0], next);
        match mat_spec(ws, kids[0], next) {
            Ok(nc) => {
                lemma_mat_children_facts(ws, kids.drop_first(), parent, ci, next + nc.0.len());
            },
            Err(_) => {},
        }
    }
}

/// `gfind` over the viewed fields agrees with `sfind` over the fields.
proof fn lemma_gfind_fields_view(s: Seq<(String, RawValue)>, key: Seq<char>)
    ensures
        match sfind(s, key) {
            Some(v) => gfind(fields_view(s), key) == Some(val_view(v)),
            None => gfind(fields_view(s), key) is None,
        },
    decreases s.len(),
{
    if s.len() > 0 {
        lemma_gfind_fields_view(s.drop_first(), key);
        assert(fields_view(s).drop_first() =~= fields_view(s.drop_first()));
    }
}

/// One value per content field of `desc`, in declared order: the node's
/// stored value when present, the declared default otherwise.
fn build_content_values(desc: &NodeDescription, values: &Vec<(String, RawValue)>) -> (r: Vec<
    (String, RawValue),
>)
    ensures
        fields_view(r@) == content_values(*desc, fields_view(values@)),
{
    let mut r: Vec<(String, RawValue)> = Vec::new();
    let mut j: usize = 0;
    while j < desc.content.len()
        invariant
            j <= desc.content@.len(),
            r@.len() == j as int,
            forall|k: int|
                0 <= k < j ==> (#[trigger] r@[k]).0@ == desc.content@[k].id@ && val_view(r@[k].1)
                    == (match gfind(fields_view(values@), desc.content@[k].id@) {
                    Some(v) => v,
                    None => val_view(desc.content@[k].default),
                }),
        decreases desc.content@.len() - j,
    {
        let c: &Content = &desc.content[j];
        let v = match crate::lookup::assoc_index(values, &c.id) {
            Some(fi) => values[fi].1.duplicate(),
            None => c.default.duplicate(),
        };
        proof {
            lemma_gfind_fields_view(values@, c.id@);
        }
        r.push((c.id.clone(), v));
        j = j + 1;
    }
    proof {
        lemma_fields_view(r@);
        assert(fields_view(r@) =~= content_values(*desc, fields_view(values@)));
    }
    r
}

impl NormalizedNode {
    /// Emits this node and its subtree: the node record takes the next id
    /// (its index in `nodes`), then each outputs entry adds its children and
    /// their connections, depth-first.
    #[verifier::loop_isolation(false)]
    fn to_editor_internal(
        &self,
        ws: &Workspace,
        nodes: &mut Vec<HyNodeProto>,
        conns: &mut Vec<HyConnection>,
    ) -> (r: Result<usize, MaterializeError>)
        ensures
            match r {
                Ok(id) => ({
                    let m = mat_spec(*ws, norm_view(*self), old(nodes)@.len() as int);
                    &&& m is Ok
                    &&& id == old(nodes)@.len()
                    &&& protos_view(final(nodes)@) == protos_view(old(nodes)@) + m->Ok_0.0
                    &&& conns_view(final(conns)@) == conns_view(old(conns)@) + m->Ok_0.1
                    &&& final(nodes)@.len() == old(nodes)@.len() + m->Ok_0.0.len()
                }),
                Err(e) => mat_spec(*ws, norm_view(*self), old(nodes)@.len() as int) == Err::<
                    (Seq<MatNodeView>, Seq<ConnView>),
                    MatErrView,
                >(merr_view(e)),
            },
        decreases *self, 0int,
    {
        let di = match find_descriptor(&ws.nodes, &self.variant) {
            Some(di) => di,
            None => {
                return Err(MaterializeError::VariantNotRegistered { variant: self.variant.clone() });
            },
        };
        proof {
            lemma_find_desc(ws.nodes@, self.variant@);
        }
        let vals = build_content_values(&ws.nodes[di], &self.values);
        let new_id = nodes.len();
        let ghost n0 = nodes@;
        let ghost c0 = conns@;
        let proto = HyNodeProto {
            x: self.position.x as i64,
            y: self.position.y as i64,
            variant_index: di,
            values: vals,
        };
        proof {
            assert(protos_view(n0.push(proto)) =~= protos_view(n0).push(proto_view(proto)));
        }
        nodes.push(proto);
        proof {
            assert(decreases_to!(*self => self.outputs));
        }
        match mat_outputs_exec(ws, &ws.nodes[di], &self.outputs, 0, new_id, nodes, conns) {
            Ok(_) => {
                proof {
                    let m = mat_spec(*ws, norm_view(*self), n0.len() as int);
                    let rec = proto_view(proto);
                    let mo = mat_outputs(
                        *ws,
                        ws.nodes@[di as int],
                        outs_view(self.outputs@).subrange(0, outs_view(self.outputs@).len() as int),
                        new_id as int,
                        n0.len() as int + 1,
                    );
                    assert(outs_view(self.outputs@).subrange(
                        0,
                        outs_view(self.outputs@).len() as int,
                    ) =~= outs_view(self.outputs@));
                    assert(protos_view(nodes@) =~= protos_view(n0) + (seq![rec] + mo->Ok_0.0));
                    assert(conns_view(conns@) =~= conns_view(c0) + mo->Ok_0.1);
                }
                Ok(new_id)
            },
            Err(e) => {
                proof {
                    assert(outs_view(self.outputs@).subrange(
                        0,
                        outs_view(self.outputs@).len() as int,
                    ) =~= outs_view(self.outputs@));
                }
                Err(e)
            },
        }
    }
}

/// Emits the outputs entries of one node from entry `oi` on.
#[verifier::loop_isolation(false)]
fn mat_outputs_exec(
    ws: &Workspace,
    desc: &NodeDescription,
    outputs: &Vec<(String, Vec<NormalizedNode>)>,
    oi: usize,
    parent: usize,
    nodes: &mut Vec<HyNodeProto>,
    conns: &mut Vec<HyConnection>,
) -> (r: Result<(), MaterializeError>)
    requires
        oi <= outputs@.len(),
    ensures
        match r {
            Ok(_) => ({
                let m = mat_outputs(
                    *ws,
                    *desc,
                    outs_view(outputs@).subrange(oi as int, outs_view(outputs@).len() as int),
                    parent as int,
                    old(nodes)@.len() as int,
                );
                &&& m is Ok
                &&& protos_view(final(nodes)@) == protos_view(old(nodes)@) + m->Ok_0.0
                &&& conns_view(final(conns)@) == conns_view(old(conns)@) + m->Ok_0.1
                &&& final(nodes)@.len() == old(nodes)@.len() + m->Ok_0.0.len()
            }),
            Err(e) => mat_outputs(
                *ws,
                *desc,
                outs_view(outputs@).subrange(oi as int, outs_view(outputs@).len() as int),
                parent as int,
                old(nodes)@.len() as int,
            ) == Err::<(Seq<MatNodeView>, Seq<ConnView>), MatErrView>(merr_view(e)),
        },
    decreases *outputs, outputs@.len() - oi,
{
    proof {
        lemma_outs_view(outputs@);
    }
    let ghost whole = outs_view(outputs@).subrange(oi as int, outs_view(outputs@).len() as int);
    if oi == outputs.len() {
        proof {
            assert(whole =~= Seq::<(Seq<char>, Seq<NormView>)>::empty());
            assert(protos_view(nodes@) =~= protos_view(nodes@) + Seq::<MatNodeView>::empty());
            assert(conns_view(conns@) =~= conns_view(conns@) + Seq::<ConnView>::empty());
        }
        return Ok(());
    }
    proof {
        assert(whole[0] == (outputs@[oi as int].0@, kids_view(outputs@[oi as int].1@)));
        assert(whole.drop_first() =~= outs_view(outputs@).subrange(
            oi as int + 1,
            outs_view(outputs@).len() as int,
        ));
    }
    let ci = match desc.get_connector(&outputs[oi].0) {
        Some(p) => p.0,
        None => {
            return Err(
                MaterializeError::OutputNotDeclared { key: outputs[oi].0.clone() },
            );
        },
    };
    let ghost n0 = nodes@;
    let ghost c0 = conns@;
    proof {
        assert(decreases_to!(*outputs => outputs@[oi as int].1));
    }
    match mat_children_exec(ws, &outputs[oi].1, 0, parent, ci, nodes, conns) {
        Ok(_) => {},
        Err(e) => {
            proof {
                assert(kids_view(outputs@[oi as int].1@).subrange(
                    0,
                    kids_view(outputs@[oi as int].1@).len() as int,
                ) =~= kids_view(outputs@[oi as int].1@));
            }
            return Err(e);
        },
    }
    let ghost n1 = nodes@;
    let ghost c1 = conns@;
    let ghost mc = mat_children(
        *ws,
        kids_view(outputs@[oi as int].1@).subrange(
            0,
            kids_view(outputs@[oi as int].1@).len() as int,
        ),
        parent as int,
        ci as int,
        n0.len() as int,
    );
    proof {
        assert(kids_view(outputs@[oi as int].1@).subrange(
            0,
            kids_view(outputs@[oi as int].1@).len() as int,
        ) =~= kids_view(outputs@[oi as int].1@));
    }
    match mat_outputs_exec(ws, desc, outputs, oi + 1, parent, nodes, conns) {
        Ok(_) => {
            proof {
                let mrest = mat_outputs(
                    *ws,
                    *desc,
                    outs_view(outputs@).subrange(oi as int + 1, outs_view(outputs@).len() as int),
                    parent as int,
                    n1.len() as int,
                );
                assert(protos_view(nodes@) =~= protos_view(n0) + (mc->Ok_0.0 + mrest->Ok_0.0));
                assert(conns_view(conns@) =~= conns_view(c0) + (mc->Ok_0.1 + mrest->Ok_0.1));
            }
            Ok(())
        },
        Err(e) => Err(e),
    }
}

/// Emits the children under one outputs entry from child `ki` on, linking
/// each back to `parent` through connector `ci`.
#[verifier::loop_isolation(false)]
fn mat_children_exec(
    ws: &Workspace,
    kids: &Vec<NormalizedNode>,
    ki: usize,
    parent: usize,
    ci: usize,
    nodes: &mut Vec<HyNodeProto>,
    conns: &mut Vec<HyConnection>,
) -> (r: Result<(), MaterializeError>)
    requires
        ki <= kids@.len(),
    ensures
        match r {
            Ok(_) => ({
                let m = mat_children(
                    *ws,
                    kids_view(kids@).subrange(ki as int, kids_view(kids@).len() as int),
                    parent as int,
                    ci as int,
                    old(nodes)@.len() as int,
                );
                &&& m is Ok
                &&& protos_view(final(nodes)@) == protos_view(old(nodes)@) + m->Ok_0.0
                &&& conns_view(final(conns)@) == conns_view(old(conns)@) + m->Ok_0.1
                &&& final(nodes)@.len() == old(nodes)@.len() + m->Ok_0.0.len()
            }),
            Err(e) => mat_children(
                *ws,
                kids_view(kids@).subrange(ki as int, kids_view(kids@).len() as int),
                parent as int,
                ci as int,
                old(nodes)@.len() as int,
            ) == Err::<(Seq<MatNodeView>, Seq<ConnView>), MatErrView>(merr_view(e)),
        },
    decreases *kids, kids@.len() - ki,
{
    proof {
        lemma_kids_view(kids@);
    }
    let ghost whole = kids_view(kids@).subrange(ki as int, kids_view(kids@).len() as int);
    if ki == kids.len() {
        proof {
            assert(whole =~= Seq::<NormView>::empty());
            assert(protos_view(nodes@) =~= protos_view(nodes@) + Seq::<MatNodeView>::empty());
            assert(conns_view(conns@) =~= conns_view(conns@) + Seq::<ConnView>::empty());
        }
        return Ok(());
    }
    proof {
        assert(whole[0] == norm_view(kids@[ki as int]));
        assert(whole.drop_first() =~= kids_view(kids@).subrange(
            ki as int + 1,
            kids_view(kids@).len() as int,
        ));
        assert(decreases_to!(*kids => kids@[ki as int]));
    }
    let ghost n0 = nodes@;
    let ghost c0 = conns@;
    let sub_id = match kids[ki].to_editor_internal(ws, nodes, conns) {
        Ok(id) => id,
        Err(e) => {
            return Err(e);
        },
    };
    let ghost msub = mat_spec(*ws, norm_view(kids@[ki as int]), n0.len() as int);
    let link = HyConnection { from_node: parent, from_connector: ci, to_node: sub_id, to_connector: 0 };
    proof {
        assert(conns_view(conns@.push(link)) =~= conns_view(conns@).push(conn_view(link)));
    }
    conns.push(link);
    let ghost n1 = nodes@;
    let ghost c1 = conns@;
    match mat_children_exec(ws, kids, ki + 1, parent, ci, nodes, conns) {
        Ok(_) => {
            proof {
                let mrest = mat_children(
                    *ws,
                    kids_view(kids@).subrange(ki as int + 1, kids_view(kids@).len() as int),
                    parent as int,
                    ci as int,
                    n1.len() as int,
                );
                assert(protos_view(nodes@) =~= protos_view(n0) + (msub->Ok_0.0 + mrest->Ok_0.0));
                assert(conns_view(conns@) =~= conns_view(c0) + ((msub->Ok_0.1 + seq![
                    conn_view(link),
                ]) + mrest->Ok_0.1));
            }
            Ok(())
        },
        Err(e) => Err(e),
    }
}

/// `m` is the least x coordinate among the records.
pub open spec fn is_min_x(ns: Seq<MatNodeView>, m: int) -> bool {
    &&& forall|i: int| 0 <= i < ns.len() ==> (#[trigger] ns[i]).x >= m
    &&& exists|i: int| 0 <= i < ns.len() && (#[trigger] ns[i]).x == m
}

/// `m` is the least y coordinate among the records.
pub open spec fn is_min_y(ns: Seq<MatNodeView>, m: int) -> bool {
    &&& forall|i: int| 0 <= i < ns.len() ==> (#[trigger] ns[i]).y >= m
    &&& exists|i: int| 0 <= i < ns.len() && (#[trigger] ns[i]).y == m
}

impl NormalizedNode {
    /// Flattens this tree into its connection list and node list.
    ///
    /// Node ids are assigned depth-first in pre-order starting at 0 — a
    /// node's id is its index, so every connection runs from a lower id to a
    /// strictly higher one — with one node per tree node and exactly one
    /// connection per node below the root. Every position is then translated
    /// by the least x and least y, so the translated minima are both 0.
    /// Fails only on a normalizer/registry disagreement, which is a bug, not
    /// bad input.
    #[verifier::loop_isolation(false)]
    pub fn to_editor(&self, workspace: &Workspace) -> (r: Result<
        (Vec<HyConnection>, Vec<HyNodeProto>),
        MaterializeError,
    >)
        ensures
            match r {
                Ok(p) => ({
                    let m = mat_spec(*workspace, norm_view(*self), 0);
                    &&& m is Ok
                    &&& conns_view(p.0@) == m->Ok_0.1
                    &&& p.1@.len() == m->Ok_0.0.len()
                    &&& p.1@.len() == tree_size(norm_view(*self))
                    &&& p.0@.len() + 1 == p.1@.len()
                    &&& exists|mx: int, my: int|
                        #![trigger is_min_x(m->Ok_0.0, mx), is_min_y(m->Ok_0.0, my)]
                        {
                            &&& is_min_x(m->Ok_0.0, mx)
                            &&& is_min_y(m->Ok_0.0, my)
                            &&& forall|i: int|
                                0 <= i < p.1@.len() ==> (#[trigger] p.1@[i]).x as int == m->Ok_0.0[i].x
                                    - mx && p.1@[i].y as int == m->Ok_0.0[i].y - my
                                    && p.1@[i].variant_index as int == m->Ok_0.0[i].variant_index
                                    && fields_view(p.1@[i].values@) == m->Ok_0.0[i].values
                        }
                    &&& forall|i: int|
                        0 <= i < p.1@.len() ==> (#[trigger] p.1@[i]).x >= 0 && p.1@[i].y >= 0
                    &&& exists|i: int| 0 <= i < p.1@.len() && (#[trigger] p.1@[i]).x == 0
                    &&& exists|i: int| 0 <= i < p.1@.len() && (#[trigger] p.1@[i]).y == 0
                    &&& forall|k: int|
                        0 <= k < p.0@.len() ==> (#[trigger] p.0@[k]).from_node < p.0@[k].to_node
                            && p.0@[k].to_node < p.1@.len() && p.0@[k].to_connector == 0
                }),
                Err(e) => mat_spec(*workspace, norm_view(*self), 0) == Err::<
                    (Seq<MatNodeView>, Seq<ConnView>),
                    MatErrView,
                >(merr_view(e)),
            },
    {
        let mut nodes: Vec<HyNodeProto> = Vec::new();
        let mut conns: Vec<HyConnection> = Vec::new();
        match self.to_editor_internal(workspace, &mut nodes, &mut conns) {
            Ok(_) => {},
            Err(e) => {
                return Err(e);
            },
        }
        let ghost m = mat_spec(*workspace, norm_view(*self), 0);
        proof {
            lemma_mat_spec_facts(*workspace, norm_view(*self), 0);
            assert(protos_view(nodes@) =~= m->Ok_0.0);
            assert(conns_view(conns@) =~= m->Ok_0.1);
        }
        let mut minx = nodes[0].x;
        let mut miny = nodes[0].y;
        let mut i: usize = 1;
        while i < nodes.len()
            invariant
                1 <= i <= nodes@.len(),
                exists|k: int| 0 <= k < i && (#[trigger] nodes@[k]).x == minx,
                forall|k: int| 0 <= k < i ==> (#[trigger] nodes@[k]).x >= minx,
                exists|k: int| 0 <= k < i && (#[trigger] nodes@[k]).y == miny,
                forall|k: int| 0 <= k < i ==> (#[trigger] nodes@[k]).y >= miny,
            decreases nodes@.len() - i,
        {
            if nodes[i].x < minx {
                minx = nodes[i].x;
            }
            if nodes[i].y < miny {
                miny = nodes[i].y;
            }
            i = i + 1;
        }
        proof {
            assert forall|k: int| 0 <= k < m->Ok_0.0.len() implies (#[trigger] m->Ok_0.0[k]).x
                >= minx as int && m->Ok_0.0[k].y >= miny as int by {
                assert(m->Ok_0.0[k] == proto_view(nodes@[k]));
            }
            let wx = choose|k: int| 0 <= k < nodes@.len() && (#[trigger] nodes@[k]).x == minx;
            assert(m->Ok_0.0[wx] == proto_view(nodes@[wx]));
            assert(m->Ok_0.0[wx].x == minx as int);
            let wy = choose|k: int| 0 <= k < nodes@.len() && (#[trigger] nodes@[k]).y == miny;
            assert(m->Ok_0.0[wy] == proto_view(nodes@[wy]));
            assert(m->Ok_0.0[wy].y == miny as int);
            assert(is_min_x(m->Ok_0.0, minx as int));
            assert(is_min_y(m->Ok_0.0, miny as int));
            assert(i32::MIN <= minx <= i32::MAX);
            assert(i32::MIN <= miny <= i32::MAX);
        }
        let ghost pre = nodes@;
        let mut shifted: Vec<HyNodeProto> = Vec::new();
        while nodes.len() > 0
            invariant
                shifted@.len() + nodes@.len() == pre.len(),
                nodes@ == pre.subrange(shifted@.len() as int, pre.len() as int),
                forall|k: int|
                    0 <= k < shifted@.len() ==> (#[trigger] shifted@[k]).x == pre[k].x - minx
                        && shifted@[k].y == pre[k].y - miny && shifted@[k].variant_index == pre[
                        k
                    ].variant_index && shifted@[k].values == pre[k].values,
            decreases nodes@.len(),
        {
            let ghost k = shifted@.len() as int;
            let p = nodes.remove(0);
            proof {
                assert(p == pre[k]);
                assert(pre.subrange(k, pre.len() as int).remove(0) =~= pre.subrange(
                    k + 1,
                    pre.len() as int,
                ));
                assert(protos_view(pre)[k] == proto_view(pre[k]));
                assert(proto_view(pre[k]) == m->Ok_0.0[k]);
                assert(i32::MIN <= pre[k].x <= i32::MAX && i32::MIN <= pre[k].y <= i32::MAX);
            }
            let q = HyNodeProto {
                x: p.x - minx,
                y: p.y - miny,
                variant_index: p.variant_index,
                values: p.values,
            };
            shifted.push(q);
        }
        proof {
            assert forall|idx: int| 0 <= idx < shifted@.len() implies (#[trigger] shifted@[
                idx
            ]).x as int == m->Ok_0.0[idx].x - minx as int && shifted@[idx].y as int == m->Ok_0.0[
                idx
            ].y - miny as int && shifted@[idx].variant_index as int == m->Ok_0.0[idx].variant_index
                && fields_view(shifted@[idx].values@) == m->Ok_0.0[idx].values by {
                assert(proto_view(pre[idx]) == m->Ok_0.0[idx]);
            }
            let ix = choose|i: int|
                0 <= i < m->Ok_0.0.len() && (#[trigger] m->Ok_0.0[i]).x == minx as int;
            assert(shifted@[ix].x as int == m->Ok_0.0[ix].x - minx as int);
            assert(shifted@[ix].x == 0);
            let iy = choose|i: int|
                0 <= i < m->Ok_0.0.len() && (#[trigger] m->Ok_0.0[i]).y == miny as int;
            assert(shifted@[iy].y as int == m->Ok_0.0[iy].y - miny as int);
            assert(shifted@[iy].y == 0);
            assert forall|k: int|
                0 <= k < conns@.len() implies (#[trigger] conns@[k]).from_node < conns@[k].to_node
                && conns@[k].to_node < shifted@.len() && conns@[k].to_connector == 0 by {
                assert(conns_view(conns@)[k] == conn_view(conns@[k]));
                assert(conn_view(conns@[k]) == m->Ok_0.1[k]);
            }
        }
        Ok((conns, shifted))
    }
}


/// How many direct children a node's outputs entries hold in total.
pub open spec fn outs_total(os: Seq<(Seq<char>, Seq<NormView>)>) -> nat
    decreases os,
{
    if os.len() == 0 {
        0
    } else {
        os[0].1.len() + outs_total(os.drop_first())
    }
}

/// A tree of uniform branching factor `b` and remaining depth `d`: a node at
/// depth 0 has no children, and any other node has exactly `b` children, all
/// uniform at depth one less.
pub open spec fn uniform_tree(n: NormView, b: nat, d: nat) -> bool
    decreases d, n,
{
    if d == 0 {
        outs_total(n.outputs) == 0
    } else {
        outs_total(n.outputs) == b && uniform_outs(n.outputs, b, (d - 1) as nat)
    }
}

pub open spec fn uniform_outs(os: Seq<(Seq<char>, Seq<NormView>)>, b: nat, d: nat) -> bool
    decreases d, os,
{
    if os.len() == 0 {
        true
    } else {
        uniform_kids(os[0].1, b, d) && uniform_outs(os.drop_first(), b, d)
    }
}

pub open spec fn uniform_kids(ks: Seq<NormView>, b: nat, d: nat) -> bool
    decreases d, ks,
{
    if ks.len() == 0 {
        true
    } else {
        uniform_tree(ks[0], b, d) && uniform_kids(ks.drop_first(), b, d)
    }
}

/// The geometric sum 1 + b + ... + b^d.
pub open spec fn geo_sum(b: nat, d: nat) -> nat
    decreases d,
{
    if d == 0 {
        1
    } else {
        1 + b * geo_sum(b, (d - 1) as nat)
    }
}

proof fn lemma_outs_total_zero_size(os: Seq<(Seq<char>, Seq<NormView>)>)
    requires
        outs_total(os) == 0,
    ensures
        outs_size(os) == 0,
    decreases os,
{
    if os.len() > 0 {
        assert(os[0].1.len() == 0);
        assert(os[0].1 =~= Seq::<NormView>::empty());
        assert(kids_size(os[0].1) == 0);
        lemma_outs_total_zero_size(os.drop_first());
    }
}

proof fn lemma_uniform_size(n: NormView, b: nat, d: nat)
    requires
        uniform_tree(n, b, d),
    ensures
        tree_size(n) == geo_sum(b, d),
    decreases d, n,
{
    if d == 0 {
        lemma_outs_total_zero_size(n.outputs);
    } else {
        lemma_uniform_outs_size(n.outputs, b, (d - 1) as nat);
    }
}

proof fn lemma_uniform_outs_size(os: Seq<(Seq<char>, Seq<NormView>)>, b: nat, d: nat)
    requires
        uniform_outs(os, b, d),
    ensures
        outs_size(os) == outs_total(os) * geo_sum(b, d),
    decreases d, os,
{
    if os.len() == 0 {
        assert(outs_total(os) * geo_sum(b, d) == 0) by (nonlinear_arith)
            requires
                outs_total(os) == 0,
        ;
    } else {
        lemma_uniform_kids_size(os[0].1, b, d);
        lemma_uniform_outs_size(os.drop_first(), b, d);
        assert((os[0].1.len() + outs_total(os.drop_first())) * geo_sum(b, d) == os[0].1.len()
            * geo_sum(b, d) + outs_total(os.drop_first()) * geo_sum(b, d)) by (nonlinear_arith);
    }
}

proof fn lemma_uniform_kids_size(ks: Seq<NormView>, b: nat, d: nat)
    requires
        uniform_kids(ks, b, d),
    ensures
        kids_size(ks) == ks.len() * geo_sum(b, d),
    decreases d, ks,
{
    if ks.len() == 0 {
    } else {
        lemma_uniform_size(ks[0], b, d);
        lemma_uniform_kids_size(ks.drop_first(), b, d);
        assert(geo_sum(b, d) + (ks.len() - 1) * geo_sum(b, d) == ks.len() * geo_sum(b, d))
            by (nonlinear_arith);
    }
}

proof fn lemma_geo_pow(b: nat, d: nat)
    requires
        b >= 1,
    ensures
        geo_sum(b, d) * (b as int - 1) + 1 == vstd::arithmetic::power::pow(b as int, (d + 1) as nat),
    decreases d,
{
    reveal_with_fuel(vstd::arithmetic::power::pow, 2);
    if d == 0 {
        assert(geo_sum(b, 0) == 1);
        assert(vstd::arithmetic::power::pow(b as int, 1nat) == b as int
            * vstd::arithmetic::power::pow(b as int, 0nat));
        assert(vstd::arithmetic::power::pow(b as int, 0nat) == 1);
        assert(1 * (b as int - 1) + 1 == b as int) by (nonlinear_arith);
    } else {
        lemma_geo_pow(b, (d - 1) as nat);
        let g = geo_sum(b, (d - 1) as nat) as int;
        let bi = b as int;
        assert((1 + b * geo_sum(b, (d - 1) as nat)) as int * (bi - 1) + 1 == bi * (g * (bi - 1)
            + 1)) by (nonlinear_arith)
            requires
                g == geo_sum(b, (d - 1) as nat) as int,
                bi == b as int,
                b >= 1,
        ;
        assert(vstd::arithmetic::power::pow(bi, (d + 1) as nat) == bi
            * vstd::arithmetic::power::pow(bi, d as nat));
    }
}

/// Materializing a tree of uniform branching factor `b >= 2` and depth `d`
/// yields exactly (b^(d+1) - 1) / (b - 1) nodes; the node and connection
/// counts themselves are fixed by [`NormalizedNode::to_editor`], which emits
/// `tree_size` nodes and one connection per node below the root. A branching
/// factor of 1 is left out: the closed form divides by zero there.
pub proof fn lemma_uniform_tree_node_count(n: NormView, b: nat, d: nat)
    requires
        uniform_tree(n, b, d),
        b >= 2,
    ensures
        tree_size(n) == (vstd::arithmetic::power::pow(b as int, (d + 1) as nat) - 1) / (b as int
            - 1),
{
    lemma_uniform_size(n, b, d);
    lemma_geo_pow(b, d);
    let g = geo_sum(b, d) as int;
    let bi = b as int;
    vstd::arithmetic::div_mod::lemma_div_multiples_vanish(g, bi - 1);
    assert((bi - 1) * g == g * (bi - 1)) by (nonlinear_arith);
}

} // verus!
