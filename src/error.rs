//! Failures of construction, assembly, function calls and patching.
use vstd::prelude::*;

verus! {

/// Why a value, an element or a patch could not be built.
#[derive(Debug, Clone, PartialEq, Eq)]
pub enum HTMLSceneSpawnError {
    UnknownType(String),
    UnknownTag(String),
    UnknownFunction(String),
    /// Function name, declared type, supplied type.
    TypeMismatch(String, String, String),
    MissingDefault(String),
    MissingParser(String),
    DeserializationFailed(String),
    /// Attribute name, and the type that the constructor function yields.
    InvalidParamType(String, String),
    NonStructPatch(String),
    UnresolvedTarget(String),
    /// The graph has no room left for the nodes of a replacement.
    GraphFull,
}

/// The mathematical model of a [`HTMLSceneSpawnError`].
pub enum ErrView {
    UnknownType(Seq<char>),
    UnknownTag(Seq<char>),
    UnknownFunction(Seq<char>),
    TypeMismatch(Seq<char>, Seq<char>, Seq<char>),
    MissingDefault(Seq<char>),
    MissingParser(Seq<char>),
    DeserializationFailed(Seq<char>),
    InvalidParamType(Seq<char>, Seq<char>),
    NonStructPatch(Seq<char>),
    UnresolvedTarget(Seq<char>),
    GraphFull,
}

impl View for HTMLSceneSpawnError {
    type V = ErrView;

    open spec fn view(&self) -> ErrView {
        match self {
            HTMLSceneSpawnError::UnknownType(a) => ErrView::UnknownType(a@),
            HTMLSceneSpawnError::UnknownTag(a) => ErrView::UnknownTag(a@),
            HTMLSceneSpawnError::UnknownFunction(a) => ErrView::UnknownFunction(a@),
            HTMLSceneSpawnError::TypeMismatch(f, e, a) => ErrView::TypeMismatch(f@, e@, a@),
            HTMLSceneSpawnError::MissingDefault(a) => ErrView::MissingDefault(a@),
            HTMLSceneSpawnError::MissingParser(a) => ErrView::MissingParser(a@),
            HTMLSceneSpawnError::DeserializationFailed(a) => ErrView::DeserializationFailed(a@),
            HTMLSceneSpawnError::InvalidParamType(a, p) => ErrView::InvalidParamType(a@, p@),
            HTMLSceneSpawnError::NonStructPatch(a) => ErrView::NonStructPatch(a@),
            HTMLSceneSpawnError::UnresolvedTarget(a) => ErrView::UnresolvedTarget(a@),
            HTMLSceneSpawnError::GraphFull => ErrView::GraphFull,
        }
    }
}

/// The words that a message of each kind starts with.
pub open spec fn message_head(e: ErrView) -> Seq<char> {
    match e {
        ErrView::UnknownType(_) => "unknown type: "@,
        ErrView::UnknownTag(_) => "unrecognized tag name: "@,
        ErrView::UnknownFunction(_) => "unknown function: "@,
        ErrView::TypeMismatch(_, _, _) => "type mismatch in call of: "@,
        ErrView::MissingDefault(_) => "no default for attribute: "@,
        ErrView::MissingParser(_) => "no parser or constructor for attribute: "@,
        ErrView::DeserializationFailed(_) => "failed to read the value of attribute: "@,
        ErrView::InvalidParamType(_, _) => "invalid constructor type for attribute: "@,
        ErrView::NonStructPatch(_) => "cannot patch a non-struct value of attribute: "@,
        ErrView::UnresolvedTarget(_) => "unresolved swap target: "@,
        ErrView::GraphFull => "no room left in the graph"@,
    }
}

/// The attribute, tag, function or target that a failure names first.
pub open spec fn message_subject(e: ErrView) -> Seq<char> {
    match e {
        ErrView::UnknownType(a) => a,
        ErrView::UnknownTag(a) => a,
        ErrView::UnknownFunction(a) => a,
        ErrView::TypeMismatch(f, _, _) => f,
        ErrView::MissingDefault(a) => a,
        ErrView::MissingParser(a) => a,
        ErrView::DeserializationFailed(a) => a,
        ErrView::InvalidParamType(a, _) => a,
        ErrView::NonStructPatch(a) => a,
        ErrView::UnresolvedTarget(a) => a,
        ErrView::GraphFull => Seq::empty(),
    }
}

impl HTMLSceneSpawnError {
    /// A short human-readable description of the failure.
    pub fn message(&self) -> (r: String)
        ensures
            r@ == message_head(self@) + message_subject(self@),
    {
        let empty = String::new();
        let (head, arg) = match self {
            HTMLSceneSpawnError::UnknownType(a) => ("unknown type: ", a),
            HTMLSceneSpawnError::UnknownTag(a) => ("unrecognized tag name: ", a),
            HTMLSceneSpawnError::UnknownFunction(a) => ("unknown function: ", a),
            HTMLSceneSpawnError::TypeMismatch(f, _, _) => ("type mismatch in call of: ", f),
            HTMLSceneSpawnError::MissingDefault(a) => ("no default for attribute: ", a),
            HTMLSceneSpawnError::MissingParser(a) => ("no parser or constructor for attribute: ", a),
            HTMLSceneSpawnError::DeserializationFailed(a) => (
                "failed to read the value of attribute: ",
                a,
            ),
            HTMLSceneSpawnError::InvalidParamType(a, _) => (
                "invalid constructor type for attribute: ",
                a,
            ),
            HTMLSceneSpawnError::NonStructPatch(a) => (
                "cannot patch a non-struct value of attribute: ",
                a,
            ),
            HTMLSceneSpawnError::UnresolvedTarget(a) => ("unresolved swap target: ", a),
            HTMLSceneSpawnError::GraphFull => ("no room left in the graph", &empty),
        };
        let mut r = String::from_str(head);
        r.append(arg.as_str());
        r
    }
}

} // verus!
