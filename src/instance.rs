//! Typed instances built from attribute values, and their mathematical model.
use vstd::prelude::*;

verus! {

/// One named field of a struct-shaped instance.
#[derive(Debug, PartialEq, Eq)]
pub struct FieldValue {
    pub name: String,
    pub value: Instance,
}

/// A value of some registered type.
///
/// A `Record` may hold only some of its type's fields: it is then a patch to be
/// laid over a default. A `Call` is a value still to be produced by a named
/// constructor function applied to its argument.
#[derive(Debug, PartialEq, Eq)]
pub enum Instance {
    Unit,
    Int(i64),
    Bool(bool),
    Text(String),
    Record(Vec<FieldValue>),
    Items(Vec<Instance>),
    Variant(String, Box<Instance>),
    Call(String, Box<Instance>),
}

/// The mathematical model of an [`Instance`].
pub enum IView {
    Unit,
    Int(int),
    Bool(bool),
    Text(Seq<char>),
    Record(Seq<(Seq<char>, IView)>),
    Items(Seq<IView>),
    Variant(Seq<char>, Box<IView>),
    Call(Seq<char>, Box<IView>),
}

pub open spec fn fields_model(s: Seq<FieldValue>) -> Seq<(Seq<char>, IView)>
    decreases s,
{
    if s.len() == 0 {
        Seq::empty()
    } else {
        fields_model(s.drop_last()).push((s.last().name@, s.last().value.model()))
    }
}

pub open spec fn items_model(s: Seq<Instance>) -> Seq<IView>
    decreases s,
{
    if s.len() == 0 {
        Seq::empty()
    } else {
        items_model(s.drop_last()).push(s.last().model())
    }
}

impl Instance {
    pub open spec fn model(&self) -> IView
        decreases self,
    {
        match self {
            Instance::Unit => IView::Unit,
            Instance::Int(n) => IView::Int(*n as int),
            Instance::Bool(b) => IView::Bool(*b),
            Instance::Text(s) => IView::Text(s@),
            Instance::Record(fs) => IView::Record(fields_model(fs@)),
            Instance::Items(xs) => IView::Items(items_model(xs@)),
            Instance::Variant(n, p) => IView::Variant(n@, Box::new(p.model())),
            Instance::Call(n, a) => IView::Call(n@, Box::new(a.model())),
        }
    }
}

pub proof fn lemma_fields_model_len(s: Seq<FieldValue>)
    ensures
        fields_model(s).len() == s.len(),
        forall|i: int|
            0 <= i < s.len() ==> #[trigger] fields_model(s)[i] == (s[i].name@, s[i].value.model()),
    decreases s.len(),
{
    if s.len() > 0 {
        lemma_fields_model_len(s.drop_last());
    }
}

pub proof fn lemma_items_model_len(s: Seq<Instance>)
    ensures
        items_model(s).len() == s.len(),
        forall|i: int| 0 <= i < s.len() ==> #[trigger] items_model(s)[i] == s[i].model(),
    decreases s.len(),
{
    if s.len() > 0 {
        lemma_items_model_len(s.drop_last());
    }
}

/// An instance and its model have the same outer form.
pub proof fn lemma_model_shape(i: Instance)
    ensures
        i.model() is Unit <==> i is Unit,
        i.model() is Int <==> i is Int,
        i.model() is Bool <==> i is Bool,
        i.model() is Text <==> i is Text,
        i.model() is Record <==> i is Record,
        i.model() is Items <==> i is Items,
        i.model() is Variant <==> i is Variant,
        i.model() is Call <==> i is Call,
        i is Variant ==> i.model() == IView::Variant(i->Variant_0@, Box::new(i->Variant_1.model())),
        i is Items ==> i.model() == IView::Items(items_model(i->Items_0@)),
        i is Int ==> i.model() == IView::Int(i->Int_0 as int),
        i is Text ==> i.model() == IView::Text(i->Text_0@),
{
}

} // verus!
