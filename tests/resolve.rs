use bevy_html::resolve::{resolve_calls, resolve_plan};
use bevy_html::scene::{Facet, Plan};
use bevy_html::{
    Attribute, Element, FieldValue, Graph, HTMLSceneSpawnError, Host, Instance, LeafParser,
    NamedSystemRegistry, Shape, TypeDescriptor, TypeRegistry, spawn_document,
};

fn s(x: &str) -> String {
    x.to_string()
}

/// Doubles integers.
struct Doubler;

impl Host for Doubler {
    fn run(&mut self, _functions: &mut NamedSystemRegistry, _name: &String, input: Instance) -> Instance {
        match input {
            Instance::Int(n) => Instance::Int(n * 2),
            other => other,
        }
    }

    fn render(&mut self, _functions: &mut NamedSystemRegistry, _name: &String, _graph: &Graph) -> Element {
        Element { tag: s("Entity"), attributes: vec![], id: None, children: vec![], text: None }
    }
}

fn record() -> Instance {
    Instance::Record(vec![
        FieldValue {
            name: s("a"),
            value: Instance::Call(s("double"), Box::new(Instance::Call(s("double"), Box::new(Instance::Int(4))))),
        },
        FieldValue { name: s("b"), value: Instance::Int(1) },
    ])
}

#[test]
fn pending_calls_are_run_innermost_first() {
    let mut fns = NamedSystemRegistry::new();
    fns.register(s("double"), s("i64"), s("i64"));
    let r = resolve_calls(record(), &mut fns, &mut Doubler).unwrap();
    assert_eq!(
        r,
        Instance::Record(vec![
            FieldValue { name: s("a"), value: Instance::Int(16) },
            FieldValue { name: s("b"), value: Instance::Int(1) },
        ])
    );
}

#[test]
fn pending_call_of_unknown_function_fails() {
    let mut fns = NamedSystemRegistry::new();
    assert_eq!(
        resolve_calls(record(), &mut fns, &mut Doubler),
        Err(HTMLSceneSpawnError::UnknownFunction(s("double")))
    );
}

#[test]
fn instance_without_calls_is_kept() {
    let mut fns = NamedSystemRegistry::new();
    let i = Instance::Items(vec![Instance::Text(s("x")), Instance::Bool(true)]);
    assert_eq!(
        resolve_calls(i, &mut fns, &mut Doubler),
        Ok(Instance::Items(vec![Instance::Text(s("x")), Instance::Bool(true)]))
    );
}

#[test]
fn plans_are_resolved_throughout() {
    let mut fns = NamedSystemRegistry::new();
    fns.register(s("double"), s("i64"), s("i64"));
    let child = Plan {
        facets: vec![Facet { ty: s("Size"), value: Instance::Call(s("double"), Box::new(Instance::Int(3))) }],
        id: None,
        children: vec![],
    };
    let plan = Plan { facets: vec![], id: Some(s("top")), children: vec![child] };
    let r = resolve_plan(plan, &mut fns, &mut Doubler).unwrap();
    assert_eq!(r.id, Some(s("top")));
    assert_eq!(r.children[0].facets[0].value, Instance::Int(6));
}

#[test]
fn spawned_document_runs_constructor_calls() {
    let mut types = TypeRegistry::new();
    types.register(TypeDescriptor { name: s("i64"), shape: Shape::Value, default: None, parser: Some(LeafParser::Int), template: None });
    types.register(TypeDescriptor { name: s("Size"), shape: Shape::Value, default: None, parser: None, template: None });
    let mut fns = NamedSystemRegistry::new();
    fns.register(s("double"), s("i64"), s("Size"));
    let mut g = Graph::new();
    let root = g.spawn(None);
    let doc = Element {
        tag: s("Entity"),
        attributes: vec![Attribute { name: s("Size"), value: Some(s("(\"double\", 21)")) }],
        id: Some(s("box")),
        children: vec![],
        text: None,
    };
    spawn_document(&mut g, &types, &mut fns, &mut Doubler, root, &doc).unwrap();
    assert_eq!(g.nodes[root].facets, vec![Facet { ty: s("Size"), value: Instance::Int(42) }]);
    assert_eq!(g.names[0].name, "box");
    assert_eq!(g.names[0].node, root);
}
