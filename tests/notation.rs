use bevy_html::{Ident, Lit, LitField, parse_notation};

fn s(x: &str) -> String {
    x.to_string()
}

#[test]
fn reads_atoms() {
    assert_eq!(parse_notation(" 42 "), Some(Lit::Int(42)));
    assert_eq!(parse_notation("-7"), Some(Lit::Int(-7)));
    assert_eq!(parse_notation("\"a\\\"b\""), Some(Lit::Str(s("a\"b"))));
    assert_eq!(parse_notation("Center"), Some(Lit::Word(s("Center"))));
    assert_eq!(parse_notation("-9223372036854775808"), Some(Lit::Int(i64::MIN)));
    assert_eq!(parse_notation("9223372036854775808"), None);
}

#[test]
fn reads_groups_and_maps() {
    assert_eq!(
        parse_notation("Px(10)"),
        Some(Lit::Group(Some(s("Px")), vec![Lit::Int(10)]))
    );
    assert_eq!(
        parse_notation("(1, \"x\",)"),
        Some(Lit::Group(None, vec![Lit::Int(1), Lit::Str(s("x"))]))
    );
    assert_eq!(
        parse_notation("{ a: 1, b: Auto }"),
        Some(Lit::Record(
            None,
            vec![
                LitField { name: s("a"), value: Lit::Int(1) },
                LitField { name: s("b"), value: Lit::Word(s("Auto")) }
            ]
        ))
    );
    assert_eq!(parse_notation("()"), Some(Lit::Group(None, vec![])));
}

#[test]
fn rejects_malformed() {
    assert_eq!(parse_notation(""), None);
    assert_eq!(parse_notation("(1 2)"), None);
    assert_eq!(parse_notation("a: 1"), None);
    assert_eq!(parse_notation("\"open"), None);
    assert_eq!(parse_notation("1 2"), None);
}

#[test]
fn identifiers() {
    assert_eq!(Ident::parse("count_2"), Some(Ident(s("count_2"))));
    assert_eq!(Ident::parse("2count"), None);
    assert_eq!(Ident::parse("a b"), None);
    assert_eq!(Ident::parse(""), None);
}
