use bevy_html::construct::{construct_from_lit, construct_instance, construct_lit};
use bevy_html::patch::patch;
use bevy_html::{
    Field, FieldValue, HTMLSceneSpawnError, Instance, LeafParser, Lit, LitField,
    NamedSystemRegistry, Shape, TypeDescriptor, TypeRegistry, TypedPartialReflectDeserializer,
    Variant, VariantKind, parse_notation,
};

fn s(x: &str) -> String {
    x.to_string()
}

fn leaf(name: &str, parser: Option<LeafParser>) -> TypeDescriptor {
    TypeDescriptor { name: s(name), shape: Shape::Value, default: None, parser, template: None }
}

fn field(name: &str, ty: &str) -> Field {
    Field { name: s(name), ty: s(ty) }
}

fn fv(name: &str, value: Instance) -> FieldValue {
    FieldValue { name: s(name), value }
}

fn registry() -> TypeRegistry {
    let mut r = TypeRegistry::new();
    r.register(leaf("i64", Some(LeafParser::Int)));
    r.register(leaf("String", Some(LeafParser::Text)));
    r.register(leaf("bool", Some(LeafParser::Bool)));
    r.register(leaf("Color", None));
    r.register(leaf("Rgba", Some(LeafParser::Color)));
    r.register(TypeDescriptor {
        name: s("Counter"),
        shape: Shape::Struct(vec![field("count", "i64"), field("step", "i64")]),
        default: Some(Instance::Record(vec![
            fv("count", Instance::Int(0)),
            fv("step", Instance::Int(1)),
        ])),
        parser: None,
        template: None,
    });
    r.register(TypeDescriptor {
        name: s("Label"),
        shape: Shape::Struct(vec![field("text", "String"), field("shown", "bool")]),
        default: None,
        parser: None,
        template: None,
    });
    r.register(TypeDescriptor {
        name: s("Val"),
        shape: Shape::Enum(vec![
            Variant { name: s("Auto"), kind: VariantKind::Unit },
            Variant { name: s("Px"), kind: VariantKind::Tuple(vec![s("i64")]) },
            Variant { name: s("Pair"), kind: VariantKind::Tuple(vec![s("i64"), s("i64")]) },
            Variant {
                name: s("Box"),
                kind: VariantKind::Struct(vec![field("w", "i64"), field("h", "i64")]),
            },
        ]),
        default: None,
        parser: None,
        template: None,
    });
    r.register(TypeDescriptor {
        name: s("UiRect"),
        shape: Shape::Enum(vec![Variant {
            name: s("All"),
            kind: VariantKind::Tuple(vec![s("Val")]),
        }]),
        default: None,
        parser: None,
        template: None,
    });
    r.register(TypeDescriptor {
        name: s("Wrapper"),
        shape: Shape::TupleLike(vec![s("i64")]),
        default: None,
        parser: None,
        template: None,
    });
    r.register(TypeDescriptor {
        name: s("BadDefault"),
        shape: Shape::Struct(vec![field("count", "i64")]),
        default: Some(Instance::Int(5)),
        parser: None,
        template: None,
    });
    r.register(TypeDescriptor {
        name: s("Handle<Image>"),
        shape: Shape::Value,
        default: None,
        parser: Some(LeafParser::Text),
        template: None,
    });
    r
}

fn build(text: &str, ty: &str) -> Result<Instance, HTMLSceneSpawnError> {
    let types = registry();
    let fns = NamedSystemRegistry::new();
    construct_instance(&types, &fns, &s("attr"), &s(ty), Some(text))
}

#[test]
fn counter_value_patches_default() {
    let r = build("count: 3", "Counter").unwrap();
    assert_eq!(
        r,
        Instance::Record(vec![fv("count", Instance::Int(3)), fv("step", Instance::Int(1))])
    );
}

#[test]
fn full_explicit_value_round_trips() {
    let r = build("count: 7, step: 9", "Counter").unwrap();
    assert_eq!(
        r,
        Instance::Record(vec![fv("count", Instance::Int(7)), fv("step", Instance::Int(9))])
    );
    let r = build("step: 9, count: 7", "Counter").unwrap();
    assert_eq!(
        r,
        Instance::Record(vec![fv("count", Instance::Int(7)), fv("step", Instance::Int(9))])
    );
}

#[test]
fn partial_patch_keeps_other_fields() {
    let r = build("step: 4", "Counter").unwrap();
    assert_eq!(
        r,
        Instance::Record(vec![fv("count", Instance::Int(0)), fv("step", Instance::Int(4))])
    );
}

#[test]
fn no_value_gives_default() {
    let types = registry();
    let fns = NamedSystemRegistry::new();
    let r = construct_instance(&types, &fns, &s("Counter"), &s("Counter"), None).unwrap();
    assert_eq!(
        r,
        Instance::Record(vec![fv("count", Instance::Int(0)), fv("step", Instance::Int(1))])
    );
}

#[test]
fn struct_without_default_stays_partial() {
    let r = build("text: \"hi\"", "Label").unwrap();
    assert_eq!(r, Instance::Record(vec![fv("text", Instance::Text(s("hi")))]));
}

#[test]
fn entities_are_decoded() {
    let r = build("text: &quot;a&amp;b&quot;, shown: true", "Label").unwrap();
    assert_eq!(
        r,
        Instance::Record(vec![
            fv("text", Instance::Text(s("a&b"))),
            fv("shown", Instance::Bool(true))
        ])
    );
}

#[test]
fn newtype_variant_payload_is_not_nested() {
    let r = build("Px(10)", "Val").unwrap();
    assert_eq!(
        r,
        Instance::Variant(s("Px"), Box::new(Instance::Items(vec![Instance::Int(10)])))
    );
    let r = build("All(Px(10))", "UiRect").unwrap();
    assert_eq!(
        r,
        Instance::Variant(
            s("All"),
            Box::new(Instance::Items(vec![Instance::Variant(
                s("Px"),
                Box::new(Instance::Items(vec![Instance::Int(10)]))
            )]))
        )
    );
}

#[test]
fn enum_forms() {
    assert_eq!(
        build("Auto", "Val").unwrap(),
        Instance::Variant(s("Auto"), Box::new(Instance::Unit))
    );
    assert_eq!(
        build("Pair(1, -2)", "Val").unwrap(),
        Instance::Variant(
            s("Pair"),
            Box::new(Instance::Items(vec![Instance::Int(1), Instance::Int(-2)]))
        )
    );
    assert_eq!(
        build("Box(w: 3, h: 4)", "Val").unwrap(),
        Instance::Variant(
            s("Box"),
            Box::new(Instance::Record(vec![fv("w", Instance::Int(3)), fv("h", Instance::Int(4))]))
        )
    );
    assert!(matches!(
        build("Nope", "Val"),
        Err(HTMLSceneSpawnError::DeserializationFailed(a)) if a == "attr"
    ));
}

#[test]
fn single_field_tuple_takes_bare_value() {
    assert_eq!(build("5", "Wrapper").unwrap(), Instance::Items(vec![Instance::Int(5)]));
}

#[test]
fn unknown_field_is_rejected() {
    assert!(matches!(
        build("nope: 1", "Counter"),
        Err(HTMLSceneSpawnError::DeserializationFailed(a)) if a == "attr"
    ));
}

#[test]
fn unknown_type_error() {
    assert!(matches!(
        build("1", "Missing"),
        Err(HTMLSceneSpawnError::UnknownType(t)) if t == "Missing"
    ));
}

#[test]
fn missing_default_error() {
    let types = registry();
    let fns = NamedSystemRegistry::new();
    let r = construct_instance(&types, &fns, &s("Label"), &s("Label"), None);
    assert!(matches!(r, Err(HTMLSceneSpawnError::MissingDefault(a)) if a == "Label"));
}

#[test]
fn missing_parser_error() {
    assert!(matches!(
        build("12", "Color"),
        Err(HTMLSceneSpawnError::MissingParser(a)) if a == "attr"
    ));
}

#[test]
fn constructor_function_fallback() {
    let types = registry();
    let mut fns = NamedSystemRegistry::new();
    fns.register(s("rgb"), s("String"), s("Color"));
    fns.register(s("count"), s("i64"), s("i64"));
    let r = construct_instance(&types, &fns, &s("attr"), &s("Color"), Some("(\"rgb\", \"#fff\")"))
        .unwrap();
    assert_eq!(r, Instance::Call(s("rgb"), Box::new(Instance::Text(s("#fff")))));
    let r = construct_instance(&types, &fns, &s("attr"), &s("Color"), Some("(\"count\", 3)"));
    assert!(matches!(
        r,
        Err(HTMLSceneSpawnError::InvalidParamType(a, p)) if a == "attr" && p == "i64"
    ));
}

#[test]
fn non_struct_patch_error() {
    assert!(matches!(
        build("count: 1", "BadDefault"),
        Err(HTMLSceneSpawnError::NonStructPatch(a)) if a == "attr"
    ));
}

#[test]
fn typed_deserializer_leaves_fields_unset() {
    let types = registry();
    let fns = NamedSystemRegistry::new();
    let ty = s("Counter");
    let attr = s("Counter");
    let d = TypedPartialReflectDeserializer::new(&ty, &types, &fns, &attr);
    let lit = parse_notation("(step: 2)").unwrap();
    assert_eq!(d.deserialize(&lit).unwrap(), Instance::Record(vec![fv("step", Instance::Int(2))]));
}

#[test]
fn construct_from_literal_and_lit_budget() {
    let types = registry();
    let fns = NamedSystemRegistry::new();
    let lit = Lit::Record(
        None,
        vec![LitField { name: s("count"), value: Lit::Int(8) }],
    );
    let r = construct_from_lit(&types, &fns, &s("a"), &s("Counter"), Some(&lit)).unwrap();
    assert_eq!(
        r,
        Instance::Record(vec![fv("count", Instance::Int(8)), fv("step", Instance::Int(1))])
    );
    assert!(matches!(
        construct_lit(&types, &fns, &s("a"), &s("Wrapper"), &Lit::Int(1), 0),
        Err(HTMLSceneSpawnError::DeserializationFailed(_))
    ));
}

#[test]
fn patch_replaces_different_variant() {
    let d = Instance::Variant(s("Auto"), Box::new(Instance::Unit));
    let p = Instance::Variant(s("Px"), Box::new(Instance::Items(vec![Instance::Int(2)])));
    assert_eq!(
        patch(&d, &p).unwrap(),
        Instance::Variant(s("Px"), Box::new(Instance::Items(vec![Instance::Int(2)])))
    );
    assert_eq!(patch(&Instance::Int(1), &Instance::Record(vec![])), None);
}

#[test]
fn generic_suffix_is_resolved() {
    let types = registry();
    let fns = NamedSystemRegistry::new();
    let ty = bevy_html::registry::resolve_name("Handle:Image");
    assert_eq!(ty, "Handle<Image>");
    let r = construct_instance(&types, &fns, &s("Handle:Image"), &ty, Some("\"cool.png\""));
    assert_eq!(r.unwrap(), Instance::Text(s("cool.png")));
}

#[test]
fn registry_capabilities_and_lookup() {
    let mut types = registry();
    let fns = NamedSystemRegistry::new();
    assert!(types.register_default(
        &s("Label"),
        Instance::Record(vec![fv("text", Instance::Text(s(""))), fv("shown", Instance::Bool(false))])
    ));
    assert!(!types.register_default(&s("Nope"), Instance::Unit));
    let r = construct_instance(&types, &fns, &s("a"), &s("Label"), Some("text: \"hi\"")).unwrap();
    assert_eq!(
        r,
        Instance::Record(vec![fv("text", Instance::Text(s("hi"))), fv("shown", Instance::Bool(false))])
    );
    assert!(types.register_parser(&s("Color"), LeafParser::Text));
    let r = construct_instance(&types, &fns, &s("a"), &s("Color"), Some("\"red\"")).unwrap();
    assert_eq!(r, Instance::Text(s("red")));
    assert_eq!(types.lookup("Handle:Image").unwrap().name, "Handle<Image>");
    assert!(matches!(
        types.lookup("Nope"),
        Err(HTMLSceneSpawnError::UnknownType(t)) if t == "Nope"
    ));
}

#[test]
fn css_colours_read_as_channels() {
    let ints = |v: [i64; 4]| Instance::Items(v.iter().map(|x| Instance::Int(*x)).collect());
    assert_eq!(build("\"#ff0000\"", "Rgba").unwrap(), ints([255, 0, 0, 255]));
    assert_eq!(build("\"transparent\"", "Rgba").unwrap(), ints([0, 0, 0, 0]));
    assert!(matches!(
        build("\"not a colour\"", "Rgba"),
        Err(HTMLSceneSpawnError::MissingParser(a)) if a == "attr"
    ));
}

#[test]
fn one_field_tuple_reads_grouped_and_bare_alike() {
    assert_eq!(build("(5)", "Wrapper").unwrap(), Instance::Items(vec![Instance::Int(5)]));
    assert_eq!(build("5", "Wrapper").unwrap(), build("(5)", "Wrapper").unwrap());
    assert!(matches!(
        build("(1, 2)", "Wrapper"),
        Err(HTMLSceneSpawnError::DeserializationFailed(_))
    ));
}

#[test]
fn newtype_payload_wrapped_reads_as_bare() {
    assert_eq!(build("Px((10))", "Val").unwrap(), build("Px(10)", "Val").unwrap());
    assert_eq!(build("All((Px(10)))", "UiRect").unwrap(), build("All(Px(10))", "UiRect").unwrap());
}

#[test]
fn struct_value_in_parentheses_reads_too() {
    assert_eq!(build("(count: 3)", "Counter").unwrap(), build("count: 3", "Counter").unwrap());
}
