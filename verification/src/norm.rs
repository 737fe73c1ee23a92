//! The tree normalizer.
//!
//! Normalization converts a raw nested tree into a validated intermediate
//! tree, one call per node. Each field of the raw node is classified against
//! the owning descriptor's schema: a pin-declared field must embed one nested
//! object or an array of nested objects — each child resolves its own
//! concrete descriptor and is normalized recursively — while any other field
//! is kept verbatim as opaque configuration, provided it does not smuggle
//! embedded nodes. Normalization is fail-fast: the first error anywhere in
//! the subtree, in field order, aborts the whole call.

use vstd::prelude::*;
use crate::common::NodeId;
use crate::common::Position;
use crate::lookup::gfind;
use crate::nodes::NodeDescription;
use crate::nodes::resolve_spec;
use crate::nodes::spec_get_pin;
use crate::nodes::find_desc;
use crate::raw::RawNode;
use crate::raw::RawValue;
use crate::raw::ValView;
use crate::raw::fields_view;
use crate::raw::lemma_fields_view;
use crate::raw::opt_node_id_view;
use crate::raw::opt_string_view;
use crate::raw::val_view;
use crate::workspace::Workspace;

verus! {

/// Which shape requirement a field value broke.
#[derive(Debug, Clone, Copy, PartialEq, Eq, Structural)]
pub enum ShapeReason {
    /// A pin field must hold an object or an array of objects.
    PinFieldNotObject,
    /// Every element of a pin field's array must be an object.
    PinArrayElementNotObject,
    /// A non-pin field must not embed child nodes.
    NonPinEmbedsNode,
}

/// Why normalization of a subtree was aborted. The offending field key is
/// named so a caller can point at the bad input.
#[derive(Debug)]
pub enum NormalizeError {
    /// Pin or variant lookup found nothing resolvable for the child payload
    /// embedded at `key`.
    SchemaResolutionFailure { key: String },
    /// The value under `key` has the wrong shape.
    ShapeMismatch { key: String, reason: ShapeReason },
}

/// The mathematical shape of a [`NormalizeError`].
pub enum NormErrView {
    SchemaResolutionFailure(Seq<char>),
    ShapeMismatch(Seq<char>, ShapeReason),
}

pub open spec fn nerr_view(e: NormalizeError) -> NormErrView {
    match e {
        NormalizeError::SchemaResolutionFailure { key } => NormErrView::SchemaResolutionFailure(
            key@,
        ),
        NormalizeError::ShapeMismatch { key, reason } => NormErrView::ShapeMismatch(key@, reason),
    }
}

/// A validated node: scalar configuration in `values`, pin-connected
/// children in `outputs` (per schema key, in authored order), and the
/// resolved descriptor id in `variant`. It is exclusively owned by its
/// parent and always a tree.
#[derive(Debug)]
pub struct NormalizedNode {
    pub position: Position,
    pub comment: Option<String>,
    pub node_id: Option<NodeId>,
    pub variant: String,
    pub values: Vec<(String, RawValue)>,
    pub outputs: Vec<(String, Vec<NormalizedNode>)>,
}

/// The mathematical shape of a [`NormalizedNode`].
pub struct NormView {
    pub position: Position,
    pub comment: Option<Seq<char>>,
    pub node_id: Option<Seq<char>>,
    pub variant: Seq<char>,
    pub values: Seq<(Seq<char>, ValView)>,
    pub outputs: Seq<(Seq<char>, Seq<NormView>)>,
}

pub open spec fn norm_view(n: NormalizedNode) -> NormView
    decreases n,
{
    NormView {
        position: n.position,
        comment: opt_string_view(n.comment),
        node_id: opt_node_id_view(n.node_id),
        variant: n.variant@,
        values: fields_view(n.values@),
        outputs: outs_view(n.outputs@),
    }
}

pub open spec fn kids_view(ks: Seq<NormalizedNode>) -> Seq<NormView>
    decreases ks,
{
    if ks.len() == 0 {
        Seq::empty()
    } else {
        seq![norm_view(ks[0])] + kids_view(ks.drop_first())
    }
}

pub open spec fn outs_view(os: Seq<(String, Vec<NormalizedNode>)>) -> Seq<(Seq<char>, Seq<NormView>)>
    decreases os,
{
    if os.len() == 0 {
        Seq::empty()
    } else {
        seq![(os[0].0@, kids_view(os[0].1@))] + outs_view(os.drop_first())
    }
}

/// `kids_view` maps the sequence element by element.
pub proof fn lemma_kids_view(ks: Seq<NormalizedNode>)
    ensures
        kids_view(ks).len() == ks.len(),
        forall|i: int| 0 <= i < ks.len() ==> kids_view(ks)[i] == norm_view(ks[i]),
    decreases ks.len(),
{
    if ks.len() > 0 {
        lemma_kids_view(ks.drop_first());
    }
}

/// `outs_view` maps the sequence element by element.
pub proof fn lemma_outs_view(os: Seq<(String, Vec<NormalizedNode>)>)
    ensures
        outs_view(os).len() == os.len(),
        forall|i: int|
            0 <= i < os.len() ==> outs_view(os)[i] == (os[i].0@, kids_view(os[i].1@)),
    decreases os.len(),
{
    if os.len() > 0 {
        lemma_outs_view(os.drop_first());
    }
}

/// The error a non-pin field raises, if any: it must not hold an object nor
/// an array with any object element.
pub open spec fn plain_field_error(key: String, v: RawValue) -> Option<NormErrView> {
    match v {
        RawValue::Object(_) => Some(
            NormErrView::ShapeMismatch(key@, ShapeReason::NonPinEmbedsNode),
        ),
        RawValue::Array(elems) => if exists|j: int|
            0 <= j < elems@.len() && elems@[j] is Object {
            Some(NormErrView::ShapeMismatch(key@, ShapeReason::NonPinEmbedsNode))
        } else {
            None
        },
        _ => None,
    }
}

/// What normalization makes of one raw node under descriptor `d`.
pub open spec fn norm_spec(ws: Workspace, d: NodeDescription, n: RawNode) -> Result<
    NormView,
    NormErrView,
>
    decreases n,
{
    match norm_fields(ws, d, n.values@) {
        Ok(vo) => Ok(
            NormView {
                position: n.position,
                comment: opt_string_view(n.comment),
                node_id: opt_node_id_view(n.node_id),
                variant: d.id@,
                values: vo.0,
                outputs: vo.1,
            },
        ),
        Err(e) => Err(e),
    }
}

/// What normalization makes of a raw node's fields, in field order: the kept
/// scalar values and the normalized pin children, or the first error.
pub open spec fn norm_fields(
    ws: Workspace,
    d: NodeDescription,
    fields: Seq<(String, RawValue)>,
) -> Result<(Seq<(Seq<char>, ValView)>, Seq<(Seq<char>, Seq<NormView>)>), NormErrView>
    decreases fields,
{
    if fields.len() == 0 {
        Ok((Seq::empty(), Seq::empty()))
    } else {
        let key = fields[0].0;
        let v = fields[0].1;
        if spec_get_pin(d, key@) is Some {
            match norm_pin_value(ws, d, key, v) {
                Ok(kids) => match norm_fields(ws, d, fields.drop_first()) {
                    Ok(rest) => Ok((rest.0, seq![(key@, kids)] + rest.1)),
                    Err(e) => Err(e),
                },
                Err(e) => Err(e),
            }
        } else {
            match plain_field_error(key, v) {
                Some(e) => Err(e),
                None => match norm_fields(ws, d, fields.drop_first()) {
                    Ok(rest) => Ok((seq![(key@, val_view(v))] + rest.0, rest.1)),
                    Err(e) => Err(e),
                },
            }
        }
    }
}

/// What normalization makes of the value of a pin-declared field: the
/// ordered normalized children it embeds, or the first error.
pub open spec fn norm_pin_value(ws: Workspace, d: NodeDescription, key: String, v: RawValue) -> Result<
    Seq<NormView>,
    NormErrView,
>
    decreases v,
{
    match v {
        RawValue::Object(child) => match resolve_spec(ws, d, key@, child.values@) {
            Some(i) => match norm_spec(ws, ws.nodes@[i], *child) {
                Ok(nn) => Ok(seq![nn]),
                Err(e) => Err(e),
            },
            None => Err(NormErrView::SchemaResolutionFailure(key@)),
        },
        RawValue::Array(elems) => norm_elems(ws, d, key, elems@),
        _ => Err(NormErrView::ShapeMismatch(key@, ShapeReason::PinFieldNotObject)),
    }
}

/// What normalization makes of a pin field's array elements, each resolving
/// its own variant independently, in array order.
pub open spec fn norm_elems(
    ws: Workspace,
    d: NodeDescription,
    key: String,
    elems: Seq<RawValue>,
) -> Result<Seq<NormView>, NormErrView>
    decreases elems,
{
    if elems.len() == 0 {
        Ok(Seq::empty())
    } else {
        match elems[0] {
            RawValue::Object(child) => match resolve_spec(ws, d, key@, child.values@) {
                Some(i) => match norm_spec(ws, ws.nodes@[i], *child) {
                    Ok(nn) => match norm_elems(ws, d, key, elems.drop_first()) {
                        Ok(rest) => Ok(seq![nn] + rest),
                        Err(e) => Err(e),
                    },
                    Err(e) => Err(e),
                },
                None => Err(NormErrView::SchemaResolutionFailure(key@)),
            },
            _ => Err(NormErrView::ShapeMismatch(key@, ShapeReason::PinArrayElementNotObject)),
        }
    }
}

impl RawNode {
    /// Normalizes this raw node against descriptor `description` of
    /// `workspace`, recursively.
    pub fn normalize(self, workspace: &Workspace, description: &NodeDescription) -> (r: Result<
        NormalizedNode,
        NormalizeError,
    >)
        ensures
            match r {
                Ok(nn) => norm_spec(*workspace, *description, self) == Ok::<
                    NormView,
                    NormErrView,
                >(norm_view(nn)),
                Err(e) => norm_spec(*workspace, *description, self) == Err::<
                    NormView,
                    NormErrView,
                >(nerr_view(e)),
            },
    {
        normalize(workspace, description, self)
    }
}

/// Normalizes one raw node against descriptor `desc` of `ws`, recursively.
pub(crate) fn normalize(ws: &Workspace, desc: &NodeDescription, node: RawNode) -> (r: Result<
    NormalizedNode,
    NormalizeError,
>)
    ensures
        match r {
            Ok(nn) => norm_spec(*ws, *desc, node) == Ok::<NormView, NormErrView>(norm_view(nn)),
            Err(e) => norm_spec(*ws, *desc, node) == Err::<NormView, NormErrView>(nerr_view(e)),
        },
    decreases node,
{
    let ghost orig = node;
    let RawNode { position, comment, node_id, values } = node;
    proof {
        assert(values == orig.values);
        assert(decreases_to!(orig => values@));
    }
    match normalize_fields(ws, desc, values) {
        Ok(vo) => {
            let (vals, outs) = vo;
            Ok(
                NormalizedNode {
                    position,
                    comment,
                    node_id,
                    variant: desc.id.clone(),
                    values: vals,
                    outputs: outs,
                },
            )
        },
        Err(e) => Err(e),
    }
}

/// Normalizes the fields of one raw node, in field order.
#[verifier::loop_isolation(false)]
fn normalize_fields(ws: &Workspace, desc: &NodeDescription, fields: Vec<(String, RawValue)>) -> (r:
    Result<(Vec<(String, RawValue)>, Vec<(String, Vec<NormalizedNode>)>), NormalizeError>)
    ensures
        match r {
            Ok(vo) => norm_fields(*ws, *desc, fields@) == Ok::<
                (Seq<(Seq<char>, ValView)>, Seq<(Seq<char>, Seq<NormView>)>),
                NormErrView,
            >((fields_view(vo.0@), outs_view(vo.1@))),
            Err(e) => norm_fields(*ws, *desc, fields@) == Err::<
                (Seq<(Seq<char>, ValView)>, Seq<(Seq<char>, Seq<NormView>)>),
                NormErrView,
            >(nerr_view(e)),
        },
    decreases fields@,
{
    let ghost orig = fields@;
    let mut fields = fields;
    if fields.len() == 0 {
        return Ok((Vec::new(), Vec::new()));
    }
    let entry = fields.remove(0);
    proof {
        assert(entry == orig[0]);
        assert(fields@ =~= orig.drop_first());
        assert(decreases_to!(orig => orig[0]));
        assert(decreases_to!(orig[0] => orig[0].1));
        vstd::seq::axiom_seq_subrange_decreases(orig, 1, orig.len() as int);
    }
    let (key, value) = entry;
    let is_pin = match desc.get_pin(&key) {
        Some(_) => true,
        None => false,
    };
    if is_pin {
        let kids = match normalize_pin_value(ws, desc, &key, value) {
            Ok(k) => k,
            Err(e) => {
                return Err(e);
            },
        };
        match normalize_fields(ws, desc, fields) {
            Ok(vo) => {
                let (vals, mut outs) = vo;
                proof {
                    lemma_outs_view(outs@);
                    lemma_outs_view(outs@.insert(0, (key, kids)));
                    assert(outs_view(outs@.insert(0, (key, kids))) =~= seq![
                        (key@, kids_view(kids@)),
                    ] + outs_view(outs@));
                }
                outs.insert(0, (key, kids));
                Ok((vals, outs))
            },
            Err(e) => Err(e),
        }
    } else {
        match &value {
            RawValue::Object(_) => {
                return Err(
                    NormalizeError::ShapeMismatch {
                        key,
                        reason: ShapeReason::NonPinEmbedsNode,
                    },
                );
            },
            RawValue::Array(elems) => {
                let mut j: usize = 0;
                while j < elems.len()
                    invariant
                        j <= elems@.len(),
                        forall|k: int| 0 <= k < j ==> !(elems@[k] is Object),
                    decreases elems@.len() - j,
                {
                    if matches!(&elems[j], RawValue::Object(_)) {
                        return Err(
                            NormalizeError::ShapeMismatch {
                                key,
                                reason: ShapeReason::NonPinEmbedsNode,
                            },
                        );
                    }
                    j = j + 1;
                }
            },
            _ => {},
        }
        match normalize_fields(ws, desc, fields) {
            Ok(vo) => {
                let (mut vals, outs) = vo;
                proof {
                    lemma_fields_view(vals@);
                    lemma_fields_view(vals@.insert(0, (key, value)));
                    assert(fields_view(vals@.insert(0, (key, value))) =~= seq![
                        (key@, val_view(value)),
                    ] + fields_view(vals@));
                }
                vals.insert(0, (key, value));
                Ok((vals, outs))
            },
            Err(e) => Err(e),
        }
    }
}

/// Normalizes the value of a pin-declared field into its ordered children.
fn normalize_pin_value(ws: &Workspace, desc: &NodeDescription, key: &String, value: RawValue) -> (r:
    Result<Vec<NormalizedNode>, NormalizeError>)
    ensures
        match r {
            Ok(kids) => norm_pin_value(*ws, *desc, *key, value) == Ok::<
                Seq<NormView>,
                NormErrView,
            >(kids_view(kids@)),
            Err(e) => norm_pin_value(*ws, *desc, *key, value) == Err::<
                Seq<NormView>,
                NormErrView,
            >(nerr_view(e)),
        },
    decreases value,
{
    let ghost ov = value;
    match value {
        RawValue::Object(child) => {
            let i = match desc.get_variant(ws, key, &child.values) {
                Some(i) => i,
                None => {
                    return Err(NormalizeError::SchemaResolutionFailure { key: key.clone() });
                },
            };
            proof {
                assert(decreases_to!(ov => *child));
            }
            match normalize(ws, &ws.nodes[i], *child) {
                Ok(nn) => {
                    let mut kids: Vec<NormalizedNode> = Vec::new();
                    kids.push(nn);
                    proof {
                        lemma_kids_view(kids@);
                        assert(kids_view(kids@) =~= seq![norm_view(kids@[0])]);
                    }
                    Ok(kids)
                },
                Err(e) => Err(e),
            }
        },
        RawValue::Array(elems) => {
            proof {
                assert(decreases_to!(ov => elems@));
            }
            normalize_elems(ws, desc, key, elems)
        },
        _ => Err(
            NormalizeError::ShapeMismatch {
                key: key.clone(),
                reason: ShapeReason::PinFieldNotObject,
            },
        ),
    }
}

/// Normalizes the elements of a pin field's array, in array order.
fn normalize_elems(ws: &Workspace, desc: &NodeDescription, key: &String, elems: Vec<RawValue>) -> (r:
    Result<Vec<NormalizedNode>, NormalizeError>)
    ensures
        match r {
            Ok(kids) => norm_elems(*ws, *desc, *key, elems@) == Ok::<
                Seq<NormView>,
                NormErrView,
            >(kids_view(kids@)),
            Err(e) => norm_elems(*ws, *desc, *key, elems@) == Err::<
                Seq<NormView>,
                NormErrView,
            >(nerr_view(e)),
        },
    decreases elems@,
{
    let ghost orig = elems@;
    let mut elems = elems;
    if elems.len() == 0 {
        return Ok(Vec::new());
    }
    let first = elems.remove(0);
    proof {
        assert(first == orig[0]);
        assert(elems@ =~= orig.drop_first());
        assert(decreases_to!(orig => orig[0]));
        vstd::seq::axiom_seq_subrange_decreases(orig, 1, orig.len() as int);
    }
    match first {
        RawValue::Object(child) => {
            let i = match desc.get_variant(ws, key, &child.values) {
                Some(i) => i,
                None => {
                    return Err(NormalizeError::SchemaResolutionFailure { key: key.clone() });
                },
            };
            proof {
                assert(decreases_to!(orig[0] => *child));
            }
            let nn = match normalize(ws, &ws.nodes[i], *child) {
                Ok(nn) => nn,
                Err(e) => {
                    return Err(e);
                },
            };
            match normalize_elems(ws, desc, key, elems) {
                Ok(mut kids) => {
                    proof {
                        lemma_kids_view(kids@);
                        lemma_kids_view(kids@.insert(0, nn));
                        assert(kids_view(kids@.insert(0, nn)) =~= seq![norm_view(nn)] + kids_view(
                            kids@,
                        ));
                    }
                    kids.insert(0, nn);
                    Ok(kids)
                },
                Err(e) => Err(e),
            }
        },
        _ => Err(
            NormalizeError::ShapeMismatch {
                key: key.clone(),
                reason: ShapeReason::PinArrayElementNotObject,
            },
        ),
    }
}

/// A normalization that succeeds took no non-pin field that embedded a child
/// node: a non-pin field holding an object, or an array with any object
/// element, always fails the whole call with a shape mismatch.
pub proof fn lemma_ok_no_embedded_nodes(
    ws: Workspace,
    d: NodeDescription,
    fields: Seq<(String, RawValue)>,
)
    requires
        norm_fields(ws, d, fields) is Ok,
    ensures
        forall|i: int|
            0 <= i < fields.len() && spec_get_pin(d, (#[trigger] fields[i]).0@) is None
                ==> plain_field_error(fields[i].0, fields[i].1) is None,
    decreases fields.len(),
{
    if fields.len() > 0 {
        if spec_get_pin(d, fields[0].0@) is Some {
            match norm_pin_value(ws, d, fields[0].0, fields[0].1) {
                Ok(_) => {
                    lemma_ok_no_embedded_nodes(ws, d, fields.drop_first());
                },
                Err(_) => {},
            }
        } else {
            match plain_field_error(fields[0].0, fields[0].1) {
                Some(_) => {},
                None => {
                    lemma_ok_no_embedded_nodes(ws, d, fields.drop_first());
                },
            }
        }
        assert forall|i: int|
            0 <= i < fields.len() && spec_get_pin(d, (#[trigger] fields[i]).0@) is None implies plain_field_error(
            fields[i].0,
            fields[i].1,
        ) is None by {
            if i > 0 {
                assert(fields.drop_first()[i - 1] == fields[i]);
            }
        }
    }
}

/// A successfully normalized pin array yields exactly one child per array
/// element.
pub proof fn lemma_norm_elems_len(
    ws: Workspace,
    d: NodeDescription,
    key: String,
    elems: Seq<RawValue>,
)
    ensures
        match norm_elems(ws, d, key, elems) {
            Ok(kids) => kids.len() == elems.len(),
            Err(_) => true,
        },
    decreases elems,
{
    if elems.len() > 0 {
        match elems[0] {
            RawValue::Object(child) => {
                lemma_norm_elems_len(ws, d, key, elems.drop_first());
            },
            _ => {},
        }
    }
}

/// In a successful normalization, the first field under a pin-declared key
/// contributes exactly the outputs entry found under that key.
pub proof fn lemma_norm_fields_pin_entry(
    ws: Workspace,
    d: NodeDescription,
    fields: Seq<(String, RawValue)>,
    i: int,
)
    requires
        0 <= i < fields.len(),
        spec_get_pin(d, fields[i].0@) is Some,
        forall|j: int| 0 <= j < i ==> fields[j].0@ != fields[i].0@,
        norm_fields(ws, d, fields) is Ok,
    ensures
        norm_pin_value(ws, d, fields[i].0, fields[i].1) is Ok,
        gfind(norm_fields(ws, d, fields)->Ok_0.1, fields[i].0@) == Some(
            norm_pin_value(ws, d, fields[i].0, fields[i].1)->Ok_0,
        ),
    decreases fields.len(),
{
    let key = fields[i].0;
    let rest = fields.drop_first();
    if i == 0 {
        let os = norm_fields(ws, d, fields)->Ok_0.1;
        assert(os[0] == (key@, norm_pin_value(ws, d, key, fields[0].1)->Ok_0));
    } else {
        assert(rest[i - 1] == fields[i]);
        assert forall|j: int| 0 <= j < i - 1 implies (#[trigger] rest[j]).0@ != rest[i - 1].0@ by {
            assert(rest[j] == fields[j + 1]);
        }
        lemma_norm_fields_pin_entry(ws, d, rest, i - 1);
        let os = norm_fields(ws, d, fields)->Ok_0.1;
        let os_rest = norm_fields(ws, d, rest)->Ok_0.1;
        if spec_get_pin(d, fields[0].0@) is Some {
            assert(os == seq![(fields[0].0@, norm_pin_value(ws, d, fields[0].0, fields[0].1)->Ok_0)]
                + os_rest);
            assert(os.drop_first() =~= os_rest);
            assert(os[0].0 == fields[0].0@);
        } else {
            assert(os == os_rest);
        }
    }
}

/// A pin field holding an array of objects that all resolve and normalize
/// yields an outputs entry with exactly one independently normalized child
/// per array element, under that field's key.
pub proof fn lemma_pin_array_children(
    ws: Workspace,
    d: NodeDescription,
    n: RawNode,
    i: int,
    elems: Vec<RawValue>,
)
    requires
        norm_spec(ws, d, n) is Ok,
        0 <= i < n.values@.len(),
        spec_get_pin(d, n.values@[i].0@) is Some,
        forall|j: int| 0 <= j < i ==> n.values@[j].0@ != n.values@[i].0@,
        n.values@[i].1 == RawValue::Array(elems),
    ensures
        ({
            let outputs = norm_spec(ws, d, n)->Ok_0.outputs;
            &&& gfind(outputs, n.values@[i].0@) is Some
            &&& gfind(outputs, n.values@[i].0@)->Some_0.len() == elems@.len()
        }),
{
    lemma_norm_fields_pin_entry(ws, d, n.values@, i);
    lemma_norm_elems_len(ws, d, n.values@[i].0, elems@);
}

/// A root sheet: its title and workspace id, and the root node proper.
#[derive(Debug)]
pub struct RootNode {
    pub title: String,
    pub workspace_id: String,
    pub node: RawNode,
}

/// The sheet-level data a root normalization hands back beside the tree.
#[derive(Debug)]
pub struct WorksheetInfo {
    pub title: String,
    pub workspace_id: String,
}

/// What normalizing a whole sheet yields: the root descriptor is located by
/// `root_variant` and the tree is normalized under it.
pub open spec fn root_norm_spec(ws: Workspace, root_variant: Seq<char>, n: RawNode) -> Result<
    NormView,
    NormErrView,
> {
    match find_desc(ws.nodes@, root_variant) {
        Some(i) => norm_spec(ws, ws.nodes@[i], n),
        None => Err(NormErrView::SchemaResolutionFailure(root_variant)),
    }
}

impl RootNode {
    /// Normalizes a whole sheet against the descriptor named `root_variant`.
    pub fn normalize(self, workspace: &Workspace, root_variant: &String) -> (r: Result<
        (NormalizedNode, WorksheetInfo),
        NormalizeError,
    >)
        ensures
            match r {
                Ok(p) => {
                    &&& root_norm_spec(*workspace, root_variant@, self.node) == Ok::<
                        NormView,
                        NormErrView,
                    >(norm_view(p.0))
                    &&& p.1.title@ == self.title@
                    &&& p.1.workspace_id@ == self.workspace_id@
                },
                Err(e) => root_norm_spec(*workspace, root_variant@, self.node) == Err::<
                    NormView,
                    NormErrView,
                >(nerr_view(e)),
            },
    {
        let RootNode { title, workspace_id, node } = self;
        let i = match crate::nodes::find_descriptor(&workspace.nodes, root_variant) {
            Some(i) => i,
            None => {
                return Err(
                    NormalizeError::SchemaResolutionFailure { key: root_variant.clone() },
                );
            },
        };
        proof {
            crate::nodes::lemma_find_desc(workspace.nodes@, root_variant@);
        }
        match normalize(workspace, &workspace.nodes[i], node) {
            Ok(nn) => Ok((nn, WorksheetInfo { title, workspace_id })),
            Err(e) => Err(e),
        }
    }
}

} // verus!
