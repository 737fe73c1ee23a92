//! Node-type descriptors.
//!
//! A descriptor declares a node type: its content fields (scalar
//! configuration edited directly), its input and output connectors (the
//! attachment points of graph wiring), and a schema map that says, for each
//! field key of the nested notation, whether the key is a literal constant or
//! a pin through which child nodes are embedded.

use vstd::prelude::*;
use crate::color::ColorValue;
use crate::lookup::assoc_index;
use crate::lookup::lemma_sfind_hit;
use crate::lookup::lemma_sfind_none;
use crate::lookup::sfind;
use crate::raw::RawValue;

verus! {

/// A scalar configuration slot of a node: its id, the declared value type
/// tag, and the default value materialized when an instance leaves the slot
/// unset. A slot with no declared default carries [`RawValue::Null`].
#[derive(Debug)]
pub struct Content {
    pub id: String,
    pub typ: String,
    pub default: RawValue,
}

/// A named attachment point of a node, on the input or the output side.
#[derive(Debug, Clone)]
pub struct Connector {
    pub id: String,
    pub typ: String,
    pub color: ColorValue,
    pub label: String,
    pub multiple: bool,
}

/// A pin entry of a descriptor schema: the node id (or variant-table key)
/// accepted at this embedding point, and the output connector carrying it.
#[derive(Debug, Clone)]
pub struct Pin {
    pub node: String,
    pub pin: String,
}

/// One schema entry: a literal constant string, or a pin reference.
#[derive(Debug, Clone)]
pub enum SchemaObject {
    ConstString(String),
    Pin(Pin),
}

/// A node-type descriptor.
#[derive(Debug)]
pub struct NodeDescription {
    pub id: String,
    pub title: String,
    pub color: ColorValue,
    pub content: Vec<Content>,
    pub outputs: Vec<Connector>,
    pub inputs: Vec<Connector>,
    pub schema: Vec<(String, SchemaObject)>,
}

/// No two connectors of one direction share an id.
pub open spec fn connector_ids_unique(cs: Seq<Connector>) -> bool {
    forall|a: int, b: int| 0 <= a < b < cs.len() ==> cs[a].id@ != cs[b].id@
}

/// No two content fields share an id.
pub open spec fn content_ids_unique(cs: Seq<Content>) -> bool {
    forall|a: int, b: int| 0 <= a < b < cs.len() ==> cs[a].id@ != cs[b].id@
}

/// No two schema entries share a key.
pub open spec fn schema_keys_unique(s: Seq<(String, SchemaObject)>) -> bool {
    forall|a: int, b: int| 0 <= a < b < s.len() ==> s[a].0@ != s[b].0@
}

impl NodeDescription {
    /// The descriptor invariant: connector ids unique per direction, content
    /// ids unique, schema keys unique. Descriptors arrive from outside; a
    /// caller that wants the invariant enforced checks it on the way in.
    pub open spec fn wf(self) -> bool {
        &&& connector_ids_unique(self.outputs@)
        &&& connector_ids_unique(self.inputs@)
        &&& content_ids_unique(self.content@)
        &&& schema_keys_unique(self.schema@)
    }

    /// Decides the descriptor invariant.
    pub fn is_well_formed(&self) -> (r: bool)
        ensures
            r == self.wf(),
    {
        let mut ok = true;
        let mut j: usize = 1;
        while j < self.outputs.len()
            invariant
                ok == (forall|a: int, b: int|
                    0 <= a < b < j && b < self.outputs@.len() ==> self.outputs@[a].id@ != self.outputs@[b].id@),
            decreases self.outputs@.len() - j,
        {
            let mut i: usize = 0;
            while i < j
                invariant
                    i <= j < self.outputs@.len(),
                    ok == ((forall|a: int, b: int|
                        0 <= a < b < j && b < self.outputs@.len() ==> self.outputs@[a].id@ != self.outputs@[b].id@)
                        && (forall|a: int|
                            0 <= a < i ==> self.outputs@[a].id@ != self.outputs@[j as int].id@)),
                decreases j - i,
            {
                if self.outputs[i].id == self.outputs[j].id {
                    ok = false;
                }
                i = i + 1;
            }
            j = j + 1;
        }
        if !ok {
            return false;
        }
        let mut j: usize = 1;
        while j < self.inputs.len()
            invariant
                ok == (forall|a: int, b: int|
                    0 <= a < b < j && b < self.inputs@.len() ==> self.inputs@[a].id@ != self.inputs@[b].id@),
            decreases self.inputs@.len() - j,
        {
            let mut i: usize = 0;
            while i < j
                invariant
                    i <= j < self.inputs@.len(),
                    ok == ((forall|a: int, b: int|
                        0 <= a < b < j && b < self.inputs@.len() ==> self.inputs@[a].id@ != self.inputs@[b].id@)
                        && (forall|a: int|
                            0 <= a < i ==> self.inputs@[a].id@ != self.inputs@[j as int].id@)),
                decreases j - i,
            {
                if self.inputs[i].id == self.inputs[j].id {
                    ok = false;
                }
                i = i + 1;
            }
            j = j + 1;
        }
        if !ok {
            return false;
        }
        let mut j: usize = 1;
        while j < self.content.len()
            invariant
                ok == (forall|a: int, b: int|
                    0 <= a < b < j && b < self.content@.len() ==> self.content@[a].id@ != self.content@[b].id@),
            decreases self.content@.len() - j,
        {
            let mut i: usize = 0;
            while i < j
                invariant
                    i <= j < self.content@.len(),
                    ok == ((forall|a: int, b: int|
                        0 <= a < b < j && b < self.content@.len() ==> self.content@[a].id@ != self.content@[b].id@)
                        && (forall|a: int|
                            0 <= a < i ==> self.content@[a].id@ != self.content@[j as int].id@)),
                decreases j - i,
            {
                if self.content[i].id == self.content[j].id {
                    ok = false;
                }
                i = i + 1;
            }
            j = j + 1;
        }
        if !ok {
            return false;
        }
        let mut j: usize = 1;
        while j < self.schema.len()
            invariant
                ok == (forall|a: int, b: int|
                    0 <= a < b < j && b < self.schema@.len() ==> self.schema@[a].0@ != self.schema@[b].0@),
            decreases self.schema@.len() - j,
        {
            let mut i: usize = 0;
            while i < j
                invariant
                    i <= j < self.schema@.len(),
                    ok == ((forall|a: int, b: int|
                        0 <= a < b < j && b < self.schema@.len() ==> self.schema@[a].0@ != self.schema@[b].0@)
                        && (forall|a: int|
                            0 <= a < i ==> self.schema@[a].0@ != self.schema@[j as int].0@)),
                decreases j - i,
            {
                if self.schema[i].0 == self.schema[j].0 {
                    ok = false;
                }
                i = i + 1;
            }
            j = j + 1;
        }
        ok
    }
}

/// The pin declared in `d`'s schema under `key`; a literal entry or an
/// absent key declares no pin.
pub open spec fn spec_get_pin(d: NodeDescription, key: Seq<char>) -> Option<Pin> {
    match sfind(d.schema@, key) {
        Some(SchemaObject::Pin(p)) => Some(p),
        _ => None,
    }
}

/// The first index of `cs` holding a connector with id `id`.
pub open spec fn find_connector(cs: Seq<Connector>, id: Seq<char>) -> Option<int>
    decreases cs.len(),
{
    if cs.len() == 0 {
        None
    } else if cs[0].id@ == id {
        Some(0)
    } else {
        match find_connector(cs.drop_first(), id) {
            Some(i) => Some(i + 1),
            None => None,
        }
    }
}

/// `find_connector` returns the first matching index, and nothing exactly
/// when no connector matches.
pub proof fn lemma_find_connector(cs: Seq<Connector>, id: Seq<char>)
    ensures
        match find_connector(cs, id) {
            Some(i) => {
                &&& 0 <= i < cs.len()
                &&& cs[i].id@ == id
                &&& forall|j: int| 0 <= j < i ==> cs[j].id@ != id
            },
            None => forall|j: int| 0 <= j < cs.len() ==> cs[j].id@ != id,
        },
    decreases cs.len(),
{
    if cs.len() > 0 && cs[0].id@ != id {
        let rest = cs.drop_first();
        lemma_find_connector(rest, id);
        match find_connector(rest, id) {
            Some(i) => {
                assert(rest[i] == cs[i + 1]);
                assert forall|j: int| 0 <= j < i + 1 implies cs[j].id@ != id by {
                    if j > 0 {
                        assert(rest[j - 1] == cs[j]);
                    }
                }
            },
            None => {
                assert forall|j: int| 0 <= j < cs.len() implies cs[j].id@ != id by {
                    if j > 0 {
                        assert(rest[j - 1] == cs[j]);
                    }
                }
            },
        }
    }
}

/// The output connector index that `d`'s schema routes `key` through: the
/// schema entry must be a pin, and the pin's connector id must name an
/// output of `d`.
pub open spec fn spec_get_connector(d: NodeDescription, key: Seq<char>) -> Option<int> {
    match spec_get_pin(d, key) {
        Some(pin) => find_connector(d.outputs@, pin.pin@),
        None => None,
    }
}

/// The first index of `descs` holding a descriptor with id `id`.
pub open spec fn find_desc(descs: Seq<NodeDescription>, id: Seq<char>) -> Option<int>
    decreases descs.len(),
{
    if descs.len() == 0 {
        None
    } else if descs[0].id@ == id {
        Some(0)
    } else {
        match find_desc(descs.drop_first(), id) {
            Some(i) => Some(i + 1),
            None => None,
        }
    }
}

/// `find_desc` returns the first matching index, and nothing exactly when no
/// descriptor matches.
pub proof fn lemma_find_desc(descs: Seq<NodeDescription>, id: Seq<char>)
    ensures
        match find_desc(descs, id) {
            Some(i) => {
                &&& 0 <= i < descs.len()
                &&& descs[i].id@ == id
                &&& forall|j: int| 0 <= j < i ==> descs[j].id@ != id
            },
            None => forall|j: int| 0 <= j < descs.len() ==> descs[j].id@ != id,
        },
    decreases descs.len(),
{
    if descs.len() > 0 && descs[0].id@ != id {
        let rest = descs.drop_first();
        lemma_find_desc(rest, id);
        match find_desc(rest, id) {
            Some(i) => {
                assert(rest[i] == descs[i + 1]);
                assert forall|j: int| 0 <= j < i + 1 implies descs[j].id@ != id by {
                    if j > 0 {
                        assert(rest[j - 1] == descs[j]);
                    }
                }
            },
            None => {
                assert forall|j: int| 0 <= j < descs.len() implies descs[j].id@ != id by {
                    if j > 0 {
                        assert(rest[j - 1] == descs[j]);
                    }
                }
            },
        }
    }
}

/// The index of the first descriptor of `descs` with id `id`, if any.
pub fn find_descriptor(descs: &Vec<NodeDescription>, id: &String) -> (r: Option<usize>)
    ensures
        match r {
            Some(i) => find_desc(descs@, id@) == Some(i as int),
            None => find_desc(descs@, id@) is None,
        },
{
    let mut i: usize = 0;
    while i < descs.len()
        invariant
            i <= descs@.len(),
            forall|j: int| 0 <= j < i ==> descs@[j].id@ != id@,
        decreases descs@.len() - i,
    {
        if descs[i].id == *id {
            proof {
                lemma_find_desc(descs@, id@);
            }
            return Some(i);
        }
        i = i + 1;
    }
    proof {
        lemma_find_desc(descs@, id@);
    }
    None
}

impl NodeDescription {
    /// The pin declared under `key`, if the schema declares one there.
    pub fn get_pin<'a>(&'a self, key: &String) -> (r: Option<&'a Pin>)
        ensures
            match r {
                Some(p) => spec_get_pin(*self, key@) == Some(*p),
                None => spec_get_pin(*self, key@) is None,
            },
    {
        match assoc_index(&self.schema, key) {
            Some(i) => match &self.schema[i].1 {
                SchemaObject::Pin(p) => Some(p),
                SchemaObject::ConstString(_) => None,
            },
            None => None,
        }
    }

    /// The output connector that `key` routes through, with its index, if
    /// the schema declares `key` as a pin naming a declared output.
    pub fn get_connector<'a>(&'a self, key: &String) -> (r: Option<(usize, &'a Connector)>)
        ensures
            match r {
                Some(p) => {
                    &&& spec_get_connector(*self, key@) == Some(p.0 as int)
                    &&& *p.1 == self.outputs@[p.0 as int]
                },
                None => spec_get_connector(*self, key@) is None,
            },
    {
        let pin = match self.get_pin(key) {
            Some(p) => p,
            None => {
                return None;
            },
        };
        let mut i: usize = 0;
        while i < self.outputs.len()
            invariant
                i <= self.outputs@.len(),
                forall|j: int| 0 <= j < i ==> self.outputs@[j].id@ != pin.pin@,
                spec_get_pin(*self, key@) == Some(*pin),
            decreases self.outputs@.len() - i,
        {
            if self.outputs[i].id == pin.pin {
                proof {
                    lemma_find_connector(self.outputs@, pin.pin@);
                }
                return Some((i, &self.outputs[i]));
            }
            i = i + 1;
        }
        proof {
            lemma_find_connector(self.outputs@, pin.pin@);
        }
        None
    }
}

/// The descriptor index that an embedding point resolves to.
///
/// The schema entry under `key` must be a pin. When the pin's target node id
/// keys the workspace's variant table, the target is polymorphic: the
/// discriminator field named by the table entry is read from the child
/// payload's own fields, its text value is mapped through the table to a
/// concrete descriptor id, and that descriptor is located. Otherwise the
/// pin's target node id is itself the concrete id. Resolution yields nothing
/// when the schema entry is a literal or absent, when the discriminator
/// field is absent or not text, when the discriminator value is unmapped, or
/// when the concrete id matches no descriptor.
pub open spec fn resolve_spec(
    ws: crate::workspace::Workspace,
    d: NodeDescription,
    key: Seq<char>,
    child_fields: Seq<(String, RawValue)>,
) -> Option<int> {
    match spec_get_pin(d, key) {
        Some(pin) => match sfind(ws.schema.variants@, pin.node@) {
            Some(var) => match sfind(child_fields, var.variant_field_name@) {
                Some(RawValue::Text(s)) => match sfind(var.variants@, s@) {
                    Some(concrete) => find_desc(ws.nodes@, concrete@),
                    None => None,
                },
                _ => None,
            },
            None => find_desc(ws.nodes@, pin.node@),
        },
        None => None,
    }
}

impl NodeDescription {
    /// Resolves the concrete descriptor for a child payload embedded at
    /// `key`, reading the discriminator, when one is called for, from the
    /// payload's own fields.
    pub fn get_variant(
        &self,
        workspace: &crate::workspace::Workspace,
        key: &String,
        child_fields: &Vec<(String, RawValue)>,
    ) -> (r: Option<usize>)
        ensures
            match r {
                Some(i) => {
                    &&& i < workspace.nodes@.len()
                    &&& resolve_spec(*workspace, *self, key@, child_fields@) == Some(i as int)
                },
                None => resolve_spec(*workspace, *self, key@, child_fields@) is None,
            },
    {
        let pin = match self.get_pin(key) {
            Some(p) => p,
            None => {
                return None;
            },
        };
        let r = match assoc_index(&workspace.schema.variants, &pin.node) {
            Some(vi) => {
                let var = &workspace.schema.variants[vi].1;
                match assoc_index(child_fields, &var.variant_field_name) {
                    Some(fi) => match &child_fields[fi].1 {
                        RawValue::Text(s) => match assoc_index(&var.variants, s) {
                            Some(ci) => find_descriptor(&workspace.nodes, &var.variants[ci].1),
                            None => None,
                        },
                        _ => None,
                    },
                    None => None,
                }
            },
            None => find_descriptor(&workspace.nodes, &pin.node),
        };
        proof {
            match resolve_spec(*workspace, *self, key@, child_fields@) {
                Some(i) => {
                    lemma_find_desc_some_bound(workspace.nodes@, i);
                },
                None => {},
            }
        }
        r
    }
}

/// Whatever id `find_desc` located, its index lies inside the list.
proof fn lemma_find_desc_some_bound(descs: Seq<NodeDescription>, i: int)
    ensures
        forall|id: Seq<char>| find_desc(descs, id) == Some(i) ==> 0 <= i < descs.len(),
{
    assert forall|id: Seq<char>| find_desc(descs, id) == Some(i) implies 0 <= i < descs.len() by {
        lemma_find_desc(descs, id);
    }
}

/// For every discriminator value present in a variant table, resolution
/// returns exactly the descriptor the table maps it to.
pub proof fn lemma_resolve_variant_mapped(
    ws: crate::workspace::Workspace,
    d: NodeDescription,
    key: Seq<char>,
    child_fields: Seq<(String, RawValue)>,
    pin: Pin,
    var: crate::schema::Variant,
    disc: String,
    concrete: String,
    i: int,
)
    requires
        spec_get_pin(d, key) == Some(pin),
        sfind(ws.schema.variants@, pin.node@) == Some(var),
        sfind(child_fields, var.variant_field_name@) == Some(RawValue::Text(disc)),
        sfind(var.variants@, disc@) == Some(concrete),
        0 <= i < ws.nodes@.len(),
        ws.nodes@[i].id@ == concrete@,
        crate::workspace::ids_unique(ws.nodes@),
    ensures
        resolve_spec(ws, d, key, child_fields) == Some(i),
{
    lemma_find_desc(ws.nodes@, concrete@);
}

/// A discriminator value absent from the variant table, or a discriminator
/// field that is absent or not text, resolves to nothing.
pub proof fn lemma_resolve_variant_absent(
    ws: crate::workspace::Workspace,
    d: NodeDescription,
    key: Seq<char>,
    child_fields: Seq<(String, RawValue)>,
    pin: Pin,
    var: crate::schema::Variant,
)
    requires
        spec_get_pin(d, key) == Some(pin),
        sfind(ws.schema.variants@, pin.node@) == Some(var),
        match sfind(child_fields, var.variant_field_name@) {
            Some(RawValue::Text(disc)) => sfind(var.variants@, disc@) is None,
            Some(_) => true,
            None => true,
        },
    ensures
        resolve_spec(ws, d, key, child_fields) is None,
{
}

} // verus!
