use bevy_html::live::trigger_fires;
use bevy_html::{HTMLPlugin, apply_swap, assemble, read_element, triggers_of};
use bevy_html::{
    Attribute, Element, Field, FieldValue, Graph, HTMLSceneSpawnError, Host, Instance,
    LeafParser, NamedSystemRegistry, NamedSystemRegistryPlugin, PassEvents, Shape, Trigger,
    TypeDescriptor, TypeRegistry, XFunction, XOn, XSwap, XTarget, find_to_run, resolve_target,
    run_pass,
};

fn s(x: &str) -> String {
    x.to_string()
}

fn fv(name: &str, value: Instance) -> FieldValue {
    FieldValue { name: s(name), value }
}

fn registry() -> TypeRegistry {
    let mut r = TypeRegistry::new();
    r.register(TypeDescriptor {
        name: s("i64"),
        shape: Shape::Value,
        default: None,
        parser: Some(LeafParser::Int),
        template: None,
    });
    r.register(TypeDescriptor {
        name: s("Counter"),
        shape: Shape::Struct(vec![Field { name: s("count"), ty: s("i64") }]),
        default: Some(Instance::Record(vec![fv("count", Instance::Int(0))])),
        parser: None,
        template: None,
    });
    r
}

/// Renders a counter document; records what each call saw of the graph.
struct CounterHost {
    count: i64,
    seen_nodes: Vec<usize>,
    nested: Vec<Result<Instance, HTMLSceneSpawnError>>,
}

impl Host for CounterHost {
    fn run(&mut self, functions: &mut NamedSystemRegistry, name: &String, input: Instance) -> Instance {
        let again = functions.call_reflect(self, name, &s("Unit"), Instance::Unit);
        self.nested.push(again);
        input
    }

    fn render(&mut self, _functions: &mut NamedSystemRegistry, _name: &String, graph: &Graph) -> Element {
        self.seen_nodes.push(graph.nodes.len());
        self.count += 1;
        Element {
            tag: s("Counter"),
            attributes: vec![Attribute { name: s("x"), value: Some(format!("count: {}", self.count)) }],
            id: None,
            children: vec![],
            text: None,
        }
    }
}

fn host() -> CounterHost {
    CounterHost { count: 3, seen_nodes: vec![], nested: vec![] }
}

fn trigger(node: usize, on: XOn, swap: XSwap, target: XTarget) -> Trigger {
    Trigger { node, function: XFunction(s("increment")), on, swap, target, last_fired: 0 }
}

fn events() -> PassEvents {
    PassEvents { created: vec![], pressed: vec![], raised: vec![], now: 0 }
}

#[test]
fn call_with_wrong_input_type_fails() {
    let mut fns = NamedSystemRegistry::new();
    fns.register(s("increment"), s("Unit"), s("CounterDoc"));
    let mut h = host();
    let r = fns.call_reflect(&mut h, &s("increment"), &s("String"), Instance::Text(s("x")));
    assert_eq!(
        r,
        Err(HTMLSceneSpawnError::TypeMismatch(s("increment"), s("Unit"), s("String")))
    );
}

#[test]
fn function_cannot_call_itself_by_name() {
    let mut fns = NamedSystemRegistryPlugin.build();
    fns.register(s("increment"), s("Unit"), s("Unit"));
    let mut h = host();
    let r = fns.call_reflect(&mut h, &s("increment"), &s("Unit"), Instance::Int(5));
    assert_eq!(r, Ok(Instance::Int(5)));
    assert_eq!(h.nested, vec![Err(HTMLSceneSpawnError::UnknownFunction(s("increment")))]);
    let r = fns.call_reflect(&mut h, &s("increment"), &s("Unit"), Instance::Int(6));
    assert_eq!(r, Ok(Instance::Int(6)));
}

#[test]
fn unknown_function_and_type_ids() {
    let mut fns = NamedSystemRegistry::new();
    fns.register(s("f"), s("A"), s("B"));
    assert_eq!(fns.get_type_ids(&s("f")), Some((s("A"), s("B"))));
    assert_eq!(fns.get_type_ids(&s("g")), None);
    let mut h = host();
    let r = fns.call_reflect(&mut h, &s("g"), &s("A"), Instance::Unit);
    assert_eq!(r, Err(HTMLSceneSpawnError::UnknownFunction(s("g"))));
}

#[test]
fn triggers_fire_by_kind() {
    let mut ev = events();
    ev.created = vec![1];
    ev.pressed = vec![2];
    ev.raised = vec![s("ping")];
    ev.now = 100;
    assert!(trigger_fires(&trigger(1, XOn::Create, XSwap::Outer, XTarget::This), &ev));
    assert!(!trigger_fires(&trigger(2, XOn::Create, XSwap::Outer, XTarget::This), &ev));
    assert!(trigger_fires(&trigger(2, XOn::Click, XSwap::Outer, XTarget::This), &ev));
    assert!(trigger_fires(&trigger(9, XOn::Update, XSwap::Outer, XTarget::This), &ev));
    assert!(trigger_fires(&trigger(9, XOn::Fixed(100), XSwap::Outer, XTarget::This), &ev));
    assert!(!trigger_fires(&trigger(9, XOn::Fixed(101), XSwap::Outer, XTarget::This), &ev));
    assert!(trigger_fires(&trigger(9, XOn::Event(s("ping")), XSwap::Outer, XTarget::This), &ev));
    assert!(!trigger_fires(&trigger(9, XOn::Event(s("pong")), XSwap::Outer, XTarget::This), &ev));
    let ts = vec![
        trigger(1, XOn::Create, XSwap::Outer, XTarget::This),
        trigger(3, XOn::Click, XSwap::Outer, XTarget::This),
        trigger(2, XOn::Click, XSwap::Outer, XTarget::This),
    ];
    assert_eq!(find_to_run(&ts, &ev), vec![0, 2]);
}

#[test]
fn targets_resolve() {
    let mut g = Graph::new();
    let root = g.spawn(None);
    let a = g.spawn(Some(root));
    let b = g.spawn(Some(root));
    let c = g.spawn(Some(b));
    g.nodes[root].children = vec![a, b];
    g.nodes[b].children = vec![c];
    g.register_name(s("number"), a);
    g.register_name(s("leaf"), c);
    assert_eq!(resolve_target(&g, a, &XTarget::This), Ok(a));
    assert_eq!(resolve_target(&g, b, &XTarget::Name(s("number"))), Ok(a));
    assert_eq!(resolve_target(&g, root, &XTarget::ChildName(s("leaf"))), Ok(c));
    assert_eq!(
        resolve_target(&g, a, &XTarget::ChildName(s("leaf"))),
        Err(HTMLSceneSpawnError::UnresolvedTarget(s("leaf")))
    );
    assert_eq!(resolve_target(&g, a, &XTarget::NextSibling), Ok(b));
    assert_eq!(resolve_target(&g, b, &XTarget::PreviousSibling), Ok(a));
    assert_eq!(
        resolve_target(&g, b, &XTarget::NextSibling),
        Err(HTMLSceneSpawnError::UnresolvedTarget(s("NextSibling")))
    );
    assert_eq!(resolve_target(&g, c, &XTarget::Root), Ok(root));
    assert_eq!(resolve_target(&g, c, &XTarget::Entity(1)), Ok(a));
    assert_eq!(
        resolve_target(&g, c, &XTarget::Name(s("missing"))),
        Err(HTMLSceneSpawnError::UnresolvedTarget(s("missing")))
    );
}

#[test]
fn batch_calls_see_the_graph_before_any_swap() {
    let types = registry();
    let mut fns = NamedSystemRegistry::new();
    fns.register(s("increment"), s("()"), s("HTMLScene"));
    let mut g = Graph::new();
    let root = g.spawn(None);
    let mut ts = vec![
        trigger(root, XOn::Update, XSwap::Back, XTarget::This),
        trigger(root, XOn::Update, XSwap::Back, XTarget::This),
        trigger(root, XOn::Update, XSwap::Inner, XTarget::Name(s("missing"))),
    ];
    let mut h = host();
    let ev = events();
    let out = run_pass(&mut g, &types, &mut fns, &mut h, &mut ts, &ev);
    assert_eq!(h.seen_nodes, vec![1, 1, 1]);
    assert_eq!(out.len(), 3);
    assert_eq!(out[0].1, Ok(1));
    assert_eq!(out[1].1, Ok(2));
    assert_eq!(out[2].1, Err(HTMLSceneSpawnError::UnresolvedTarget(s("missing"))));
    assert_eq!(g.nodes[root].children, vec![1, 2]);
}

#[test]
fn outer_swap_after_assembly_keeps_only_new_fields() {
    let types = registry();
    let mut fns = NamedSystemRegistry::new();
    fns.register(s("increment"), s("()"), s("HTMLScene"));
    let mut g = Graph::new();
    let root = g.spawn(None);
    let mut ts = vec![trigger(root, XOn::Create, XSwap::Outer, XTarget::This)];
    let mut h = host();
    let mut ev = events();
    ev.created = vec![root];
    ev.now = 50;
    let out = run_pass(&mut g, &types, &mut fns, &mut h, &mut ts, &ev);
    assert_eq!(out, vec![(0, Ok(root))]);
    assert_eq!(ts[0].last_fired, 50);
    assert_eq!(g.nodes[root].facets.len(), 1);
    assert_eq!(g.nodes[root].facets[0].ty, "Counter");
    assert_eq!(
        g.nodes[root].facets[0].value,
        Instance::Record(vec![fv("count", Instance::Int(4))])
    );
}

#[test]
fn document_function_must_yield_a_document() {
    let mut fns = NamedSystemRegistry::new();
    fns.register(s("increment"), s("()"), s("Counter"));
    let g = Graph::new();
    let mut h = host();
    let r = fns.call(&mut h, &s("increment"), &g);
    assert_eq!(
        r,
        Err(HTMLSceneSpawnError::TypeMismatch(s("increment"), s("HTMLScene"), s("Counter")))
    );
}

#[test]
fn triggers_come_from_facets() {
    let (types, fns) = HTMLPlugin.build();
    let doc = Element {
        tag: s("Entity"),
        attributes: vec![
            Attribute { name: s("XFunction"), value: Some(s("\"increment\"")) },
            Attribute { name: s("XOn"), value: Some(s("Click")) },
            Attribute { name: s("XTarget"), value: Some(s("Name(\"number\")")) },
        ],
        id: None,
        children: vec![Element {
            tag: s("Entity"),
            attributes: vec![Attribute { name: s("XSwap"), value: Some(s("Back")) }],
            id: Some(s("number")),
            children: vec![],
            text: None,
        }],
        text: None,
    };
    let plan = assemble(&types, &fns, &read_element(&doc)).unwrap();
    let mut g = Graph::new();
    let root = g.spawn(None);
    apply_swap(&mut g, root, XSwap::Outer, plan);
    let ts = triggers_of(&g);
    assert_eq!(
        ts,
        vec![Trigger {
            node: root,
            function: XFunction(s("increment")),
            on: XOn::Click,
            swap: XSwap::Outer,
            target: XTarget::Name(s("number")),
            last_fired: 0
        }]
    );
    assert_eq!(resolve_target(&g, root, &ts[0].target), Ok(1));
}

#[test]
fn trigger_kind_without_default_needs_a_value() {
    let (types, fns) = HTMLPlugin.build();
    let doc = Element {
        tag: s("XOn"),
        attributes: vec![],
        id: None,
        children: vec![],
        text: None,
    };
    assert_eq!(
        assemble(&types, &fns, &read_element(&doc)),
        Err(HTMLSceneSpawnError::MissingDefault(s("XOn")))
    );
    assert_eq!(XSwap::default(), XSwap::Outer);
    assert_eq!(XTarget::default(), XTarget::This);
    assert_eq!(XOn::default(), XOn::Create);
}

#[test]
fn error_messages_name_their_subject() {
    assert_eq!(HTMLSceneSpawnError::UnknownTag(s("Row")).message(), "unrecognized tag name: Row");
    assert_eq!(
        HTMLSceneSpawnError::TypeMismatch(s("increment"), s("Unit"), s("String")).message(),
        "type mismatch in call of: increment"
    );
}

#[test]
fn refused_document_calls_are_reported() {
    let types = registry();
    let mut fns = NamedSystemRegistry::new();
    let mut g = Graph::new();
    let root = g.spawn(None);
    let mut ts = vec![trigger(root, XOn::Update, XSwap::Back, XTarget::This)];
    let mut h = host();
    let out = run_pass(&mut g, &types, &mut fns, &mut h, &mut ts, &events());
    assert_eq!(out, vec![(0, Err(HTMLSceneSpawnError::UnknownFunction(s("increment"))))]);
    assert!(h.seen_nodes.is_empty());
    assert!(g.nodes[root].children.is_empty());
}

#[test]
fn plugin_registers_colour_leaf() {
    let (types, fns) = HTMLPlugin.build();
    let doc = Element {
        tag: s("Entity"),
        attributes: vec![Attribute { name: s("Color"), value: Some(s("\"#00ff00\"")) }],
        id: None,
        children: vec![],
        text: None,
    };
    let plan = assemble(&types, &fns, &read_element(&doc)).unwrap();
    assert_eq!(
        plan.facets[0].value,
        Instance::Items(vec![Instance::Int(0), Instance::Int(255), Instance::Int(0), Instance::Int(255)])
    );
    assert_eq!(HTMLSceneSpawnError::GraphFull.message(), "no room left in the graph");
}
