use bevy_html::scene::{Facet, Plan, assemble_facets};
use bevy_html::{
    Attribute, Element, Field, FieldValue, Graph, HTMLSceneSpawnError, Instance, LeafParser,
    NamedSystemRegistry, Shape, TypeDescriptor, TypeRegistry, apply_swap, assemble, read_element,
    XSwap, swap_document,
};

fn s(x: &str) -> String {
    x.to_string()
}

fn fv(name: &str, value: Instance) -> FieldValue {
    FieldValue { name: s(name), value }
}

fn el(tag: &str, attrs: &[(&str, Option<&str>)], children: Vec<Element>) -> Element {
    Element {
        tag: s(tag),
        attributes: attrs
            .iter()
            .map(|(n, v)| Attribute { name: s(n), value: v.map(|x| s(x)) })
            .collect(),
        id: None,
        children,
        text: None,
    }
}

fn marker(name: &str) -> TypeDescriptor {
    TypeDescriptor {
        name: s(name),
        shape: Shape::Struct(vec![]),
        default: Some(Instance::Record(vec![])),
        parser: None,
        template: None,
    }
}

fn registry() -> TypeRegistry {
    let mut r = TypeRegistry::new();
    r.register(TypeDescriptor {
        name: s("i64"),
        shape: Shape::Value,
        default: None,
        parser: Some(LeafParser::Int),
        template: None,
    });
    r.register(TypeDescriptor {
        name: s("Counter"),
        shape: Shape::Struct(vec![Field { name: s("count"), ty: s("i64") }]),
        default: Some(Instance::Record(vec![fv("count", Instance::Int(0))])),
        parser: None,
        template: None,
    });
    r.register(TypeDescriptor {
        name: s("TextStyle"),
        shape: Shape::Struct(vec![Field { name: s("size"), ty: s("i64") }]),
        default: Some(Instance::Record(vec![fv("size", Instance::Int(12))])),
        parser: None,
        template: None,
    });
    r.register(marker("Style"));
    r.register(marker("Interaction"));
    r.register(marker("Extra"));
    let node = read_element(&el("Entity", &[("Style", None), ("Interaction", None)], vec![]));
    r.register(TypeDescriptor {
        name: s("Node"),
        shape: Shape::Struct(vec![]),
        default: Some(Instance::Record(vec![])),
        parser: None,
        template: Some(node),
    });
    let button = read_element(&el("Node", &[("Counter", Some("count: 1"))], vec![]));
    r.register(TypeDescriptor {
        name: s("Button"),
        shape: Shape::Struct(vec![]),
        default: Some(Instance::Record(vec![])),
        parser: None,
        template: Some(button),
    });
    r
}

fn facet<'a>(fs: &'a [Facet], ty: &str) -> Option<&'a Instance> {
    fs.iter().rev().find(|f| f.ty == ty).map(|f| &f.value)
}

fn facet_types(fs: &[Facet]) -> Vec<String> {
    let mut v: Vec<String> = fs.iter().map(|f| f.ty.clone()).collect();
    v.sort();
    v.dedup();
    v
}

#[test]
fn unknown_tag_fails() {
    let types = registry();
    let fns = NamedSystemRegistry::new();
    let doc = read_element(&el("Row", &[], vec![]));
    let r = assemble(&types, &fns, &doc);
    assert!(matches!(r, Err(HTMLSceneSpawnError::UnknownTag(t)) if t == "Row"));
}

#[test]
fn unknown_attribute_fails_whole_subtree() {
    let types = registry();
    let fns = NamedSystemRegistry::new();
    let doc = read_element(&el(
        "Entity",
        &[],
        vec![el("Entity", &[("Counter", None)], vec![]), el("Entity", &[("Nope", None)], vec![])],
    ));
    let r = assemble(&types, &fns, &doc);
    assert!(matches!(r, Err(HTMLSceneSpawnError::UnknownType(t)) if t == "Nope"));
}

#[test]
fn counter_document_assembles() {
    let types = registry();
    let fns = NamedSystemRegistry::new();
    let doc = read_element(&el("Counter", &[("x", Some("count: 3"))], vec![]));
    let plan = assemble(&types, &fns, &doc).unwrap();
    assert_eq!(
        facet(&plan.facets, "Counter"),
        Some(&Instance::Record(vec![fv("count", Instance::Int(3))]))
    );
    assert_eq!(facet_types(&plan.facets), vec![s("Counter")]);
}

#[test]
fn template_expands_inline() {
    let types = registry();
    let fns = NamedSystemRegistry::new();
    let via_template = read_element(&el("Button", &[], vec![]));
    let written = read_element(&el(
        "Entity",
        &[("Style", None), ("Interaction", None), ("Counter", Some("count: 1"))],
        vec![],
    ));
    let a = assemble_facets(&types, &fns, &via_template).unwrap();
    let b = assemble_facets(&types, &fns, &written).unwrap();
    assert_eq!(facet_types(&a), facet_types(&b));
    for t in facet_types(&a) {
        assert_eq!(facet(&a, &t), facet(&b, &t));
    }
}

#[test]
fn text_facet_carries_style() {
    let types = registry();
    let fns = NamedSystemRegistry::new();
    let mut e = el("Entity", &[("TextStyle", Some("size: 30"))], vec![]);
    e.text = Some(s("increment"));
    let plan = assemble(&types, &fns, &read_element(&e)).unwrap();
    assert_eq!(
        facet(&plan.facets, "Text"),
        Some(&Instance::Record(vec![
            fv("text", Instance::Text(s("increment"))),
            fv("style", Instance::Record(vec![fv("size", Instance::Int(30))]))
        ]))
    );
    assert_eq!(facet(&plan.facets, "TextStyle"), None);
}

#[test]
fn children_keep_document_order() {
    let types = registry();
    let fns = NamedSystemRegistry::new();
    let mut a = el("Counter", &[("x", Some("count: 1"))], vec![]);
    a.id = Some(s("first"));
    let b = el("Counter", &[("x", Some("count: 2"))], vec![]);
    let plan = assemble(&types, &fns, &read_element(&el("Entity", &[], vec![a, b]))).unwrap();
    assert_eq!(plan.children.len(), 2);
    assert_eq!(plan.children[0].id, Some(s("first")));
    assert_eq!(
        facet(&plan.children[1].facets, "Counter"),
        Some(&Instance::Record(vec![fv("count", Instance::Int(2))]))
    );
}

fn commit_doc(g: &mut Graph, types: &TypeRegistry, doc: Element, swap: XSwap, target: usize) -> usize {
    let fns = NamedSystemRegistry::new();
    let plan: Plan = assemble(types, &fns, &read_element(&doc)).unwrap();
    apply_swap(g, target, swap, plan)
}

#[test]
fn outer_swap_replaces_facets_exactly() {
    let types = registry();
    let mut g = Graph::new();
    let root = g.spawn(None);
    let first = el("Counter", &[("x", Some("count: 3")), ("Extra", None)], vec![el("Entity", &[], vec![])]);
    commit_doc(&mut g, &types, first, XSwap::Outer, root);
    assert_eq!(
        facet(&g.nodes[root].facets, "Counter"),
        Some(&Instance::Record(vec![fv("count", Instance::Int(3))]))
    );
    assert_eq!(g.nodes[root].children.len(), 1);
    let second = el("Counter", &[("x", Some("count: 4"))], vec![]);
    let at = commit_doc(&mut g, &types, second, XSwap::Outer, root);
    assert_eq!(at, root);
    assert_eq!(
        facet(&g.nodes[root].facets, "Counter"),
        Some(&Instance::Record(vec![fv("count", Instance::Int(4))]))
    );
    assert_eq!(facet_types(&g.nodes[root].facets), vec![s("Counter")]);
    assert!(g.nodes[root].children.is_empty());
}

#[test]
fn inner_front_back_swaps_add_one_child() {
    let types = registry();
    let mut g = Graph::new();
    let root = g.spawn(None);
    let doc = || el("Counter", &[], vec![]);
    let a = commit_doc(&mut g, &types, doc(), XSwap::Back, root);
    let b = commit_doc(&mut g, &types, doc(), XSwap::Back, root);
    assert_eq!(g.nodes[root].children, vec![a, b]);
    let c = commit_doc(&mut g, &types, doc(), XSwap::Front, root);
    assert_eq!(g.nodes[root].children, vec![c, a, b]);
    let d = commit_doc(&mut g, &types, doc(), XSwap::Inner, root);
    assert_eq!(g.nodes[root].children, vec![d]);
    assert_eq!(g.nodes[d].parent, Some(root));
    assert_eq!(
        facet(&g.nodes[d].facets, "Counter"),
        Some(&Instance::Record(vec![fv("count", Instance::Int(0))]))
    );
}

#[test]
fn placeholder_value_applies_to_tag() {
    let types = registry();
    let fns = NamedSystemRegistry::new();
    let doc = read_element(&el("Counter", &[("Extra", None), ("x", Some("count: 9"))], vec![]));
    let fs = assemble_facets(&types, &fns, &doc).unwrap();
    assert_eq!(facet(&fs, "Counter"), Some(&Instance::Record(vec![fv("count", Instance::Int(9))])));
    assert_eq!(facet_types(&fs), vec![s("Counter"), s("Extra")]);
}

#[test]
fn unreadable_value_fails() {
    let types = registry();
    let fns = NamedSystemRegistry::new();
    let doc = read_element(&el("Counter", &[("x", Some("count: (("))], vec![]));
    assert!(matches!(
        assemble(&types, &fns, &doc),
        Err(HTMLSceneSpawnError::DeserializationFailed(a)) if a == "Counter"
    ));
}

#[test]
fn swapped_document_equals_fresh_assembly() {
    let types = registry();
    let fns = NamedSystemRegistry::new();
    let mut g = Graph::new();
    let root = g.spawn(None);
    let old = read_element(&el("Counter", &[("x", Some("count: 3")), ("Extra", None)], vec![]));
    swap_document(&mut g, &types, &fns, root, XSwap::Outer, &old).unwrap();
    let new = read_element(&el("Counter", &[("x", Some("count: 4"))], vec![]));
    let fresh = assemble(&types, &fns, &new).unwrap();
    let at = swap_document(&mut g, &types, &fns, root, XSwap::Outer, &new).unwrap();
    assert_eq!(at, root);
    assert_eq!(g.nodes[root].facets, fresh.facets);
    let bad = read_element(&el("Row", &[], vec![]));
    let before = g.nodes.len();
    assert!(matches!(
        swap_document(&mut g, &types, &fns, root, XSwap::Inner, &bad),
        Err(HTMLSceneSpawnError::UnknownTag(t)) if t == "Row"
    ));
    assert_eq!(g.nodes.len(), before);
    assert_eq!(g.nodes[root].facets, fresh.facets);
}

#[test]
fn replaced_children_are_detached() {
    let types = registry();
    let mut g = Graph::new();
    let root = g.spawn(None);
    let first = el("Counter", &[], vec![el("Entity", &[], vec![])]);
    commit_doc(&mut g, &types, first, XSwap::Outer, root);
    let old_child = g.nodes[root].children[0];
    assert_eq!(g.nodes[old_child].parent, Some(root));
    let c = commit_doc(&mut g, &types, el("Counter", &[], vec![]), XSwap::Inner, root);
    assert_eq!(g.nodes[root].children, vec![c]);
    assert_eq!(g.nodes[old_child].parent, None);
    commit_doc(&mut g, &types, el("Counter", &[], vec![]), XSwap::Outer, root);
    assert_eq!(g.nodes[c].parent, None);
    assert!(g.nodes[root].children.is_empty());
}
