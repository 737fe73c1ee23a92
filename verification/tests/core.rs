use hynodes::color::ColorValue;
use hynodes::color::NamedColor;
use hynodes::common::Position;
use hynodes::graph::MaterializeError;
use hynodes::nodes::Connector;
use hynodes::nodes::Content;
use hynodes::nodes::NodeDescription;
use hynodes::nodes::Pin;
use hynodes::nodes::SchemaObject;
use hynodes::norm::NormalizeError;
use hynodes::common::NodeId;
use hynodes::norm::NormalizedNode;
use hynodes::norm::RootNode;
use hynodes::norm::ShapeReason;
use hynodes::raw::RawNode;
use hynodes::raw::RawValue;
use hynodes::schema::Variant;
use hynodes::schema::WorkspaceSchema;
use hynodes::workspace::ConstructError;
use hynodes::workspace::Workspace;

fn schema(
    categories: Vec<(String, Vec<String>)>,
    variants: Vec<(String, Variant)>,
) -> WorkspaceSchema {
    WorkspaceSchema {
        workspace_name: "test".to_string(),
        export_defaults: false,
        roots: Vec::new(),
        node_categories: categories,
        variants,
    }
}

fn out_connector(id: &str) -> Connector {
    Connector {
        id: id.to_string(),
        typ: "link".to_string(),
        color: ColorValue::Named(NamedColor::Blue),
        label: String::new(),
        multiple: true,
    }
}

fn descriptor(
    id: &str,
    color: ColorValue,
    content: Vec<Content>,
    outputs: Vec<Connector>,
    schema: Vec<(String, SchemaObject)>,
) -> NodeDescription {
    NodeDescription {
        id: id.to_string(),
        title: id.to_string(),
        color,
        content,
        outputs,
        inputs: vec![out_connector("in")],
        schema,
    }
}

fn pin_entry(key: &str, node: &str, pin: &str) -> (String, SchemaObject) {
    (
        key.to_string(),
        SchemaObject::Pin(Pin { node: node.to_string(), pin: pin.to_string() }),
    )
}

fn raw_node(position: Position, values: Vec<(String, RawValue)>) -> RawNode {
    RawNode { position, comment: None, node_id: None, values }
}

fn obj(position: Position, values: Vec<(String, RawValue)>) -> RawValue {
    RawValue::Object(Box::new(raw_node(position, values)))
}

/// Descriptors A (no pins) and B (one output pin "next" accepting A), both
/// in category "Gen".
fn gen_workspace() -> Workspace {
    let a = descriptor(
        "A",
        ColorValue::Named(NamedColor::Green),
        vec![],
        vec![],
        vec![],
    );
    let b = descriptor(
        "B",
        ColorValue::Named(NamedColor::Green),
        vec![],
        vec![out_connector("next_out")],
        vec![pin_entry("next", "A", "next_out")],
    );
    let s = schema(
        vec![("Gen".to_string(), vec!["A".to_string(), "B".to_string()])],
        Vec::new(),
    );
    Workspace::construct(s, vec![a, b]).expect("construction must succeed")
}

#[test]
fn concrete_scenario_groups_normalize_materialize() {
    let ws = gen_workspace();

    // One group "Gen" holding both descriptors, in listed order.
    assert_eq!(ws.groups.len(), 1);
    assert_eq!(ws.groups[0].name, "Gen");
    assert_eq!(ws.groups[0].members, vec![0, 1]);
    assert_eq!(ws.groups[0].color, ColorValue::Named(NamedColor::Green));

    // A root of descriptor B with field "next" = {} (an embedded A).
    let root = raw_node(
        Position { x: 0, y: 0 },
        vec![("next".to_string(), obj(Position { x: 10, y: 10 }, vec![]))],
    );
    let norm = root.normalize(&ws, &ws.nodes[1]).expect("normalization must succeed");
    assert_eq!(norm.variant, "B");
    assert_eq!(norm.outputs.len(), 1);
    assert_eq!(norm.outputs[0].0, "next");
    assert_eq!(norm.outputs[0].1.len(), 1);
    assert_eq!(norm.outputs[0].1[0].variant, "A");
    assert!(norm.values.is_empty());

    // Materialize: nodes [B at id 0, A at id 1], one connection 0 -> 1.
    let (conns, nodes) = norm.to_editor(&ws).expect("materialization must succeed");
    assert_eq!(nodes.len(), 2);
    assert_eq!(nodes[0].variant_index, 1);
    assert_eq!(nodes[1].variant_index, 0);
    assert_eq!(conns.len(), 1);
    assert_eq!(conns[0].from_node, 0);
    assert_eq!(conns[0].from_connector, 0);
    assert_eq!(conns[0].to_node, 1);
    assert_eq!(conns[0].to_connector, 0);
}

fn variant_workspace() -> Workspace {
    let circle = descriptor("Circle", ColorValue::Named(NamedColor::Red), vec![], vec![], vec![]);
    let square = descriptor("Square", ColorValue::Named(NamedColor::Blue), vec![], vec![], vec![]);
    let holder = descriptor(
        "Holder",
        ColorValue::Named(NamedColor::Grey),
        vec![],
        vec![out_connector("shape_out")],
        vec![pin_entry("shape", "Shape", "shape_out")],
    );
    let s = schema(
        vec![(
            "All".to_string(),
            vec!["Circle".to_string(), "Square".to_string(), "Holder".to_string()],
        )],
        vec![(
            "Shape".to_string(),
            Variant {
                variant_field_name: "Type".to_string(),
                variants: vec![
                    ("circle".to_string(), "Circle".to_string()),
                    ("square".to_string(), "Square".to_string()),
                ],
            },
        )],
    );
    Workspace::construct(s, vec![circle, square, holder]).expect("construction must succeed")
}

#[test]
fn resolve_returns_mapped_descriptor() {
    let ws = variant_workspace();
    let holder = &ws.nodes[2];
    let fields_circle = vec![("Type".to_string(), RawValue::Text("circle".to_string()))];
    let fields_square = vec![("Type".to_string(), RawValue::Text("square".to_string()))];
    assert_eq!(holder.get_variant(&ws, &"shape".to_string(), &fields_circle), Some(0));
    assert_eq!(holder.get_variant(&ws, &"shape".to_string(), &fields_square), Some(1));
}

#[test]
fn resolve_absent_discriminator_value_is_none() {
    let ws = variant_workspace();
    let holder = &ws.nodes[2];
    // Unmapped discriminator value.
    let unmapped = vec![("Type".to_string(), RawValue::Text("triangle".to_string()))];
    assert_eq!(holder.get_variant(&ws, &"shape".to_string(), &unmapped), None);
    // Discriminator field absent.
    let absent: Vec<(String, RawValue)> = Vec::new();
    assert_eq!(holder.get_variant(&ws, &"shape".to_string(), &absent), None);
    // Discriminator field not text.
    let not_text = vec![("Type".to_string(), RawValue::Bool(true))];
    assert_eq!(holder.get_variant(&ws, &"shape".to_string(), &not_text), None);
    // Key is not pin-declared at all.
    let fields = vec![("Type".to_string(), RawValue::Text("circle".to_string()))];
    assert_eq!(holder.get_variant(&ws, &"other".to_string(), &fields), None);
}

#[test]
fn resolve_non_variant_target_used_directly() {
    let ws = gen_workspace();
    let b = &ws.nodes[1];
    let fields: Vec<(String, RawValue)> = Vec::new();
    assert_eq!(b.get_variant(&ws, &"next".to_string(), &fields), Some(0));
}

#[test]
fn non_pin_array_with_embedded_object_fails() {
    let ws = gen_workspace();
    let root = raw_node(
        Position { x: 0, y: 0 },
        vec![(
            "data".to_string(),
            RawValue::Array(vec![
                RawValue::Number("1".to_string()),
                obj(Position { x: 0, y: 0 }, vec![]),
            ]),
        )],
    );
    match root.normalize(&ws, &ws.nodes[1]) {
        Err(NormalizeError::ShapeMismatch { key, reason }) => {
            assert_eq!(key, "data");
            assert_eq!(reason, ShapeReason::NonPinEmbedsNode);
        },
        _ => panic!("expected a shape mismatch"),
    }
}

#[test]
fn non_pin_object_fails() {
    let ws = gen_workspace();
    let root = raw_node(
        Position { x: 0, y: 0 },
        vec![("data".to_string(), obj(Position { x: 0, y: 0 }, vec![]))],
    );
    match root.normalize(&ws, &ws.nodes[1]) {
        Err(NormalizeError::ShapeMismatch { key, reason }) => {
            assert_eq!(key, "data");
            assert_eq!(reason, ShapeReason::NonPinEmbedsNode);
        },
        _ => panic!("expected a shape mismatch"),
    }
}

#[test]
fn pin_scalar_fails() {
    let ws = gen_workspace();
    let root = raw_node(
        Position { x: 0, y: 0 },
        vec![("next".to_string(), RawValue::Text("A".to_string()))],
    );
    match root.normalize(&ws, &ws.nodes[1]) {
        Err(NormalizeError::ShapeMismatch { key, reason }) => {
            assert_eq!(key, "next");
            assert_eq!(reason, ShapeReason::PinFieldNotObject);
        },
        _ => panic!("expected a shape mismatch"),
    }
}

#[test]
fn pin_array_element_not_object_fails() {
    let ws = gen_workspace();
    let root = raw_node(
        Position { x: 0, y: 0 },
        vec![(
            "next".to_string(),
            RawValue::Array(vec![obj(Position { x: 0, y: 0 }, vec![]), RawValue::Null]),
        )],
    );
    match root.normalize(&ws, &ws.nodes[1]) {
        Err(NormalizeError::ShapeMismatch { key, reason }) => {
            assert_eq!(key, "next");
            assert_eq!(reason, ShapeReason::PinArrayElementNotObject);
        },
        _ => panic!("expected a shape mismatch"),
    }
}

#[test]
fn unresolvable_variant_fails() {
    let ws = variant_workspace();
    let root = raw_node(
        Position { x: 0, y: 0 },
        vec![(
            "shape".to_string(),
            obj(
                Position { x: 0, y: 0 },
                vec![("Type".to_string(), RawValue::Text("triangle".to_string()))],
            ),
        )],
    );
    match root.normalize(&ws, &ws.nodes[2]) {
        Err(NormalizeError::SchemaResolutionFailure { key }) => assert_eq!(key, "shape"),
        _ => panic!("expected a resolution failure"),
    }
}

#[test]
fn pin_array_yields_one_child_per_element() {
    let ws = gen_workspace();
    let n = 3;
    let elems: Vec<RawValue> =
        (0..n).map(|k| obj(Position { x: k, y: k }, vec![])).collect();
    let root = raw_node(Position { x: 0, y: 0 }, vec![("next".to_string(), RawValue::Array(elems))]);
    let norm = root.normalize(&ws, &ws.nodes[1]).expect("normalization must succeed");
    assert_eq!(norm.outputs.len(), 1);
    assert_eq!(norm.outputs[0].0, "next");
    assert_eq!(norm.outputs[0].1.len(), n as usize);
    for child in &norm.outputs[0].1 {
        assert_eq!(child.variant, "A");
    }
}

#[test]
fn scalar_values_kept_verbatim() {
    let ws = gen_workspace();
    let root = raw_node(
        Position { x: 0, y: 0 },
        vec![
            ("alpha".to_string(), RawValue::Text("hello".to_string())),
            ("beta".to_string(), RawValue::Number("2.5".to_string())),
            ("gamma".to_string(), RawValue::Bool(false)),
            ("delta".to_string(), RawValue::Null),
        ],
    );
    let norm = root.normalize(&ws, &ws.nodes[0]).expect("normalization must succeed");
    assert_eq!(norm.values.len(), 4);
    assert_eq!(norm.values[0].0, "alpha");
    assert!(matches!(&norm.values[0].1, RawValue::Text(s) if s == "hello"));
    assert_eq!(norm.values[1].0, "beta");
    assert!(matches!(&norm.values[1].1, RawValue::Number(s) if s == "2.5"));
    assert_eq!(norm.values[2].0, "gamma");
    assert!(matches!(norm.values[2].1, RawValue::Bool(false)));
    assert_eq!(norm.values[3].0, "delta");
    assert!(matches!(norm.values[3].1, RawValue::Null));
    assert!(norm.outputs.is_empty());
}

/// One self-recursive descriptor "Node" whose pin "next" accepts "Node"
/// again, so trees of any depth can be authored.
fn recursive_workspace() -> Workspace {
    let node = descriptor(
        "Node",
        ColorValue::Named(NamedColor::Olive),
        vec![],
        vec![out_connector("next_out")],
        vec![pin_entry("next", "Node", "next_out")],
    );
    let s = schema(vec![("Gen".to_string(), vec!["Node".to_string()])], Vec::new());
    Workspace::construct(s, vec![node]).expect("construction must succeed")
}

/// A uniform tree of branching factor `b` and depth `d`.
fn uniform_raw(b: i32, d: i32, x: i32) -> RawValue {
    if d == 0 {
        obj(Position { x, y: d }, vec![])
    } else {
        let children: Vec<RawValue> = (0..b).map(|k| uniform_raw(b, d - 1, x + k)).collect();
        obj(Position { x, y: d }, vec![("next".to_string(), RawValue::Array(children))])
    }
}

#[test]
fn uniform_tree_counts() {
    let ws = recursive_workspace();
    let root = match uniform_raw(2, 2, 0) {
        RawValue::Object(n) => *n,
        _ => unreachable!(),
    };
    let norm = root.normalize(&ws, &ws.nodes[0]).expect("normalization must succeed");
    let (conns, nodes) = norm.to_editor(&ws).expect("materialization must succeed");
    // (B^(D+1) - 1) / (B - 1) with B = 2, D = 2.
    assert_eq!(nodes.len(), ((2i64.pow(3) - 1) / (2 - 1)) as usize);
    assert_eq!(nodes.len(), 7);
    assert_eq!(conns.len(), 6);
    // Exactly one connection per non-root node.
    for id in 1..nodes.len() {
        assert_eq!(conns.iter().filter(|c| c.to_node == id).count(), 1);
    }
    assert_eq!(conns.iter().filter(|c| c.to_node == 0).count(), 0);

    // Branching 3, depth 2: (3^3 - 1) / 2 = 13 nodes.
    let root = match uniform_raw(3, 2, 0) {
        RawValue::Object(n) => *n,
        _ => unreachable!(),
    };
    let norm = root.normalize(&ws, &ws.nodes[0]).expect("normalization must succeed");
    let (conns, nodes) = norm.to_editor(&ws).expect("materialization must succeed");
    assert_eq!(nodes.len(), 13);
    assert_eq!(conns.len(), 12);
}

#[test]
fn node_ids_are_preorder() {
    let ws = gen_workspace();
    let root = raw_node(
        Position { x: 5, y: 5 },
        vec![(
            "next".to_string(),
            RawValue::Array(vec![
                obj(Position { x: 1, y: 1 }, vec![]),
                obj(Position { x: 2, y: 2 }, vec![]),
                obj(Position { x: 3, y: 3 }, vec![]),
            ]),
        )],
    );
    let norm = root.normalize(&ws, &ws.nodes[1]).expect("normalization must succeed");
    let (conns, nodes) = norm.to_editor(&ws).expect("materialization must succeed");
    assert_eq!(nodes.len(), 4);
    assert_eq!(conns.len(), 3);
    for c in &conns {
        assert!(c.from_node < c.to_node);
        assert!(c.to_node < nodes.len());
        assert_eq!(c.to_connector, 0);
    }
}

#[test]
fn positions_normalized_to_origin() {
    let ws = gen_workspace();
    let root = raw_node(
        Position { x: -40, y: 25 },
        vec![("next".to_string(), RawValue::Array(vec![obj(Position { x: 60, y: -15 }, vec![])]))],
    );
    let norm = root.normalize(&ws, &ws.nodes[1]).expect("normalization must succeed");
    let (_, nodes) = norm.to_editor(&ws).expect("materialization must succeed");
    let min_x = nodes.iter().map(|n| n.x).min().unwrap();
    let min_y = nodes.iter().map(|n| n.y).min().unwrap();
    assert_eq!(min_x, 0);
    assert_eq!(min_y, 0);
    assert_eq!(nodes[0].x, 0);
    assert_eq!(nodes[0].y, 40);
    assert_eq!(nodes[1].x, 100);
    assert_eq!(nodes[1].y, 0);
}

#[test]
fn materialize_uses_content_defaults() {
    let slot = Content {
        id: "Speed".to_string(),
        typ: "Int".to_string(),
        default: RawValue::Number("7".to_string()),
    };
    let a = NodeDescription {
        id: "A".to_string(),
        title: "A".to_string(),
        color: ColorValue::Named(NamedColor::Green),
        content: vec![slot],
        outputs: vec![],
        inputs: vec![],
        schema: vec![],
    };
    let s = schema(vec![("Gen".to_string(), vec!["A".to_string()])], Vec::new());
    let ws = Workspace::construct(s, vec![a]).expect("construction must succeed");

    // Value absent: the declared default is materialized.
    let root = raw_node(Position { x: 0, y: 0 }, vec![]);
    let norm = root.normalize(&ws, &ws.nodes[0]).expect("normalization must succeed");
    let (_, nodes) = norm.to_editor(&ws).expect("materialization must succeed");
    assert_eq!(nodes[0].values.len(), 1);
    assert_eq!(nodes[0].values[0].0, "Speed");
    assert!(matches!(&nodes[0].values[0].1, RawValue::Number(s) if s == "7"));

    // Value present: it wins over the default.
    let root = raw_node(
        Position { x: 0, y: 0 },
        vec![("Speed".to_string(), RawValue::Number("12".to_string()))],
    );
    let norm = root.normalize(&ws, &ws.nodes[0]).expect("normalization must succeed");
    let (_, nodes) = norm.to_editor(&ws).expect("materialization must succeed");
    assert!(matches!(&nodes[0].values[0].1, RawValue::Number(s) if s == "12"));
}

#[test]
fn materialize_unknown_variant_is_invariant_violation() {
    let ws = gen_workspace();
    let bad = NormalizedNode {
        position: Position { x: 0, y: 0 },
        comment: None,
        node_id: None,
        variant: "Ghostly".to_string(),
        values: vec![],
        outputs: vec![],
    };
    match bad.to_editor(&ws) {
        Err(MaterializeError::VariantNotRegistered { variant }) => assert_eq!(variant, "Ghostly"),
        _ => panic!("expected an invariant violation"),
    }
}

#[test]
fn materialize_undeclared_output_is_invariant_violation() {
    let ws = gen_workspace();
    let child = NormalizedNode {
        position: Position { x: 0, y: 0 },
        comment: None,
        node_id: None,
        variant: "A".to_string(),
        values: vec![],
        outputs: vec![],
    };
    let bad = NormalizedNode {
        position: Position { x: 0, y: 0 },
        comment: None,
        node_id: None,
        variant: "A".to_string(),
        values: vec![],
        outputs: vec![("next".to_string(), vec![child])],
    };
    match bad.to_editor(&ws) {
        Err(MaterializeError::OutputNotDeclared { key }) => assert_eq!(key, "next"),
        _ => panic!("expected an invariant violation"),
    }
}

#[test]
fn duplicate_descriptor_id_refused() {
    let a1 = descriptor("A", ColorValue::Named(NamedColor::Green), vec![], vec![], vec![]);
    let a2 = descriptor("A", ColorValue::Named(NamedColor::Red), vec![], vec![], vec![]);
    let s = schema(Vec::new(), Vec::new());
    match Workspace::construct(s, vec![a1, a2]) {
        Err(ConstructError::DuplicateDescriptorId { id }) => assert_eq!(id, "A"),
        _ => panic!("expected a duplicate id failure"),
    }
}

#[test]
fn partition_leaves_nothing_uncategorized() {
    let a = descriptor("A", ColorValue::Named(NamedColor::Green), vec![], vec![], vec![]);
    let b = descriptor("B", ColorValue::Named(NamedColor::Red), vec![], vec![], vec![]);
    let s = schema(
        vec![
            ("First".to_string(), vec!["A".to_string()]),
            ("Second".to_string(), vec!["B".to_string()]),
        ],
        Vec::new(),
    );
    let ws = Workspace::construct(s, vec![a, b]).expect("construction must succeed");
    assert_eq!(ws.groups.len(), 2);
    assert_eq!(ws.groups[0].name, "First");
    assert_eq!(ws.groups[1].name, "Second");
    assert!(ws.groups.iter().all(|g| g.name != "Uncategorized"));
}

#[test]
fn unlisted_descriptor_surfaces_uncategorized() {
    let a = descriptor("A", ColorValue::Named(NamedColor::Green), vec![], vec![], vec![]);
    let b = descriptor("B", ColorValue::Named(NamedColor::Red), vec![], vec![], vec![]);
    let s = schema(vec![("First".to_string(), vec!["A".to_string()])], Vec::new());
    let ws = Workspace::construct(s, vec![a, b]).expect("construction must succeed");
    assert_eq!(ws.groups.len(), 2);
    assert_eq!(ws.groups[1].name, "Uncategorized");
    assert_eq!(ws.groups[1].members, vec![1]);
    assert_eq!(ws.groups[1].color, ColorValue::Named(NamedColor::Grey));
}

#[test]
fn category_id_without_descriptor_is_skipped() {
    let a = descriptor("A", ColorValue::Named(NamedColor::Green), vec![], vec![], vec![]);
    let s = schema(
        vec![("First".to_string(), vec!["Missing".to_string(), "A".to_string()])],
        Vec::new(),
    );
    let ws = Workspace::construct(s, vec![a]).expect("construction must succeed");
    assert_eq!(ws.groups.len(), 1);
    assert_eq!(ws.groups[0].members, vec![0]);
}

#[test]
fn descriptor_claimed_by_first_category_only() {
    let a = descriptor("A", ColorValue::Named(NamedColor::Green), vec![], vec![], vec![]);
    let s = schema(
        vec![
            ("First".to_string(), vec!["A".to_string()]),
            ("Second".to_string(), vec!["A".to_string()]),
        ],
        Vec::new(),
    );
    let ws = Workspace::construct(s, vec![a]).expect("construction must succeed");
    assert_eq!(ws.groups.len(), 2);
    assert_eq!(ws.groups[0].members, vec![0]);
    assert!(ws.groups[1].members.is_empty());
}

#[test]
fn group_color_mixed_falls_back_to_default() {
    let a = descriptor("A", ColorValue::Named(NamedColor::Green), vec![], vec![], vec![]);
    let b = descriptor("B", ColorValue::Named(NamedColor::Red), vec![], vec![], vec![]);
    let s = schema(
        vec![("All".to_string(), vec!["A".to_string(), "B".to_string()])],
        Vec::new(),
    );
    let ws = Workspace::construct(s, vec![a, b]).expect("construction must succeed");
    assert_eq!(ws.groups[0].color, ColorValue::Named(NamedColor::Grey));
}

#[test]
fn empty_workspace_constructs() {
    let s = schema(Vec::new(), Vec::new());
    let ws = Workspace::construct(s, Vec::new()).expect("construction must succeed");
    assert!(ws.groups.is_empty());
    assert!(ws.nodes.is_empty());
}

#[test]
fn duplicate_copies_preserve_structure() {
    let v = RawValue::Array(vec![
        RawValue::Text("x".to_string()),
        obj(
            Position { x: 1, y: 2 },
            vec![("k".to_string(), RawValue::Bool(true))],
        ),
    ]);
    let copy = v.duplicate();
    match (&v, &copy) {
        (RawValue::Array(orig), RawValue::Array(dup)) => {
            assert_eq!(orig.len(), dup.len());
            assert!(matches!(&dup[0], RawValue::Text(s) if s == "x"));
            match &dup[1] {
                RawValue::Object(n) => {
                    assert_eq!(n.position, Position { x: 1, y: 2 });
                    assert_eq!(n.values.len(), 1);
                    assert_eq!(n.values[0].0, "k");
                    assert!(matches!(n.values[0].1, RawValue::Bool(true)));
                },
                _ => panic!("expected an object"),
            }
        },
        _ => panic!("expected arrays"),
    }
}

#[test]
fn root_sheet_normalizes_under_named_descriptor() {
    let ws = gen_workspace();
    let sheet = RootNode {
        title: "Sheet".to_string(),
        workspace_id: "W1".to_string(),
        node: raw_node(
            Position { x: 0, y: 0 },
            vec![("next".to_string(), obj(Position { x: 1, y: 1 }, vec![]))],
        ),
    };
    let (norm, info) = sheet.normalize(&ws, &"B".to_string()).expect("must resolve B");
    assert_eq!(info.title, "Sheet");
    assert_eq!(info.workspace_id, "W1");
    assert_eq!(norm.variant, "B");
}

#[test]
fn root_sheet_unknown_descriptor_fails() {
    let ws = gen_workspace();
    let sheet = RootNode {
        title: String::new(),
        workspace_id: String::new(),
        node: raw_node(Position { x: 0, y: 0 }, vec![]),
    };
    match sheet.normalize(&ws, &"Nowhere".to_string()) {
        Err(NormalizeError::SchemaResolutionFailure { key }) => assert_eq!(key, "Nowhere"),
        _ => panic!("expected a resolution failure"),
    }
}

#[test]
fn bookkeeping_fields_pass_through() {
    let ws = gen_workspace();
    let root = RawNode {
        position: Position { x: 3, y: 4 },
        comment: Some("hand-tuned".to_string()),
        node_id: Some(NodeId("brush-1".to_string())),
        values: vec![],
    };
    let norm = root.normalize(&ws, &ws.nodes[0]).expect("normalization must succeed");
    assert_eq!(norm.position, Position { x: 3, y: 4 });
    assert_eq!(norm.comment.as_deref(), Some("hand-tuned"));
    assert_eq!(norm.node_id.unwrap().0, "brush-1");
}

#[test]
fn descriptor_well_formedness() {
    let good = descriptor(
        "A",
        ColorValue::Named(NamedColor::Green),
        vec![
            Content { id: "x".to_string(), typ: "Int".to_string(), default: RawValue::Null },
            Content { id: "y".to_string(), typ: "Int".to_string(), default: RawValue::Null },
        ],
        vec![out_connector("p"), out_connector("q")],
        vec![pin_entry("p", "A", "p"), pin_entry("q", "A", "q")],
    );
    assert!(good.is_well_formed());

    let dup_outputs = descriptor(
        "A",
        ColorValue::Named(NamedColor::Green),
        vec![],
        vec![out_connector("p"), out_connector("p")],
        vec![],
    );
    assert!(!dup_outputs.is_well_formed());

    let dup_content = descriptor(
        "A",
        ColorValue::Named(NamedColor::Green),
        vec![
            Content { id: "x".to_string(), typ: "Int".to_string(), default: RawValue::Null },
            Content { id: "x".to_string(), typ: "Bool".to_string(), default: RawValue::Null },
        ],
        vec![],
        vec![],
    );
    assert!(!dup_content.is_well_formed());
}

#[test]
fn pin_empty_array_yields_empty_child_list() {
    let ws = gen_workspace();
    let root = raw_node(
        Position { x: 0, y: 0 },
        vec![("next".to_string(), RawValue::Array(vec![]))],
    );
    let norm = root.normalize(&ws, &ws.nodes[1]).expect("normalization must succeed");
    assert_eq!(norm.outputs.len(), 1);
    assert_eq!(norm.outputs[0].0, "next");
    assert!(norm.outputs[0].1.is_empty());
    // Materializes to the root alone, with no connections.
    let (conns, nodes) = norm.to_editor(&ws).expect("materialization must succeed");
    assert_eq!(nodes.len(), 1);
    assert!(conns.is_empty());
}

#[test]
fn empty_category_forms_empty_group() {
    let a = descriptor("A", ColorValue::Named(NamedColor::Green), vec![], vec![], vec![]);
    let s = schema(
        vec![("Empty".to_string(), vec![]), ("Rest".to_string(), vec!["A".to_string()])],
        Vec::new(),
    );
    let ws = Workspace::construct(s, vec![a]).expect("construction must succeed");
    assert_eq!(ws.groups.len(), 2);
    assert_eq!(ws.groups[0].name, "Empty");
    assert!(ws.groups[0].members.is_empty());
    assert_eq!(ws.groups[0].color, ColorValue::Named(NamedColor::Grey));
    assert_eq!(ws.groups[1].members, vec![0]);
}
