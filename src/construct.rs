//! Construction of typed instances from literals of the value notation, guided
//! by the registered type descriptors, and the patching of defaults.
use vstd::prelude::*;
use crate::error::{ErrView, HTMLSceneSpawnError};
use crate::named_system_registry::{FunctionEntry, NamedSystemRegistry, find_fn};
use crate::instance::{
    FieldValue, IView, Instance, fields_model, items_model, lemma_items_model_len, lemma_model_shape,
};
use crate::notation::{
    LView, Lit, LitField, lemma_lit_fields_model_len, lemma_lits_model_len, lit_fields_model,
    lits_model, notation_of, parse_notation,
};
use crate::patch::{
    copy_instance, is_leaf, keys_unique, lemma_full_patch, lemma_partial_patch,
    lemma_patch_fields_nested, patch, patched,
};
use crate::registry::{
    Field, LeafParser, Shape, TypeDescriptor, TypeRegistry, Variant, VariantKind, find_type,
};

verus! {

/// Position of the first field named `name`, from `k` on.
pub open spec fn field_index_from(fs: Seq<Field>, name: Seq<char>, k: int) -> Option<int>
    decreases fs.len() - k,
{
    if k < 0 || k >= fs.len() {
        None
    } else if fs[k].name@ == name {
        Some(k)
    } else {
        field_index_from(fs, name, k + 1)
    }
}

/// Position of the first variant named `name`, from `k` on.
pub open spec fn variant_index_from(vs: Seq<Variant>, name: Seq<char>, k: int) -> Option<int>
    decreases vs.len() - k,
{
    if k < 0 || k >= vs.len() {
        None
    } else if vs[k].name@ == name {
        Some(k)
    } else {
        variant_index_from(vs, name, k + 1)
    }
}

/// The red, green, blue and alpha channels of a CSS colour text, if it is one.
pub uninterp spec fn css_rgba(s: Seq<char>) -> Option<(u8, u8, u8, u8)>;

/// Relies on `csscolorparser::parse` and `Color::to_rgba8`: whether a text is
/// a colour, and its channels, depend on the text alone.
#[verifier::external_body]
fn parse_css_color(s: &str) -> (r: Option<(u8, u8, u8, u8)>)
    ensures
        r == css_rgba(s@),
{
    match csscolorparser::parse(s) {
        Ok(c) => {
            let a = c.to_rgba8();
            Some((a[0], a[1], a[2], a[3]))
        },
        Err(_) => None,
    }
}

/// The instance of four channels.
pub open spec fn rgba_model(c: (u8, u8, u8, u8)) -> IView {
    IView::Items(
        seq![IView::Int(c.0 as int), IView::Int(c.1 as int), IView::Int(c.2 as int), IView::Int(c.3 as int)],
    )
}

/// What a leaf parser reads from a literal, if anything.
pub open spec fn leaf_value(p: Option<LeafParser>, lit: LView) -> Option<IView> {
    match p {
        Some(LeafParser::Int) => match lit {
            LView::Int(n) => Some(IView::Int(n)),
            _ => None,
        },
        Some(LeafParser::Text) => match lit {
            LView::Str(s) => Some(IView::Text(s)),
            _ => None,
        },
        Some(LeafParser::Color) => match lit {
            LView::Str(t) => match css_rgba(t) {
                Some(c) => Some(rgba_model(c)),
                None => None,
            },
            _ => None,
        },
        Some(LeafParser::Bool) => match lit {
            LView::Word(w) => if w == seq!['t', 'r', 'u', 'e'] {
                Some(IView::Bool(true))
            } else if w == seq!['f', 'a', 'l', 's', 'e'] {
                Some(IView::Bool(false))
            } else {
                None
            },
            _ => None,
        },
        None => None,
    }
}

/// The instance that `lit` denotes as a value of type `ty`, or the first failure.
///
/// `budget` bounds the chain of one-field tuple types that a non-sequence literal
/// is handed down through; it is renewed whenever the literal gets smaller.
pub open spec fn build(
    types: Seq<TypeDescriptor>,
    fns: Seq<FunctionEntry>,
    attr: Seq<char>,
    ty: Seq<char>,
    lit: LView,
    budget: nat,
) -> Result<IView, ErrView>
    decreases lit, budget,
{
    let fail = ErrView::DeserializationFailed(attr);
    match find_type(types, ty) {
        None => Err(ErrView::UnknownType(ty)),
        Some(d) => match d.shape {
            Shape::Struct(fields) => match lit {
                LView::Record(_, lfs) => match build_fields(types, fns, attr, fields@, lfs) {
                    Ok(v) => Ok(IView::Record(v)),
                    Err(e) => Err(e),
                },
                LView::Group(_, items) => if items.len() == 0 {
                    Ok(IView::Record(Seq::empty()))
                } else {
                    Err(fail)
                },
                _ => Err(fail),
            },
            Shape::TupleLike(tys) => match lit {
                LView::Group(_, items) => if items.len() <= tys@.len() {
                    match build_items(types, fns, attr, tys@, items) {
                        Ok(v) => Ok(IView::Items(v)),
                        Err(e) => Err(e),
                    }
                } else {
                    Err(fail)
                },
                _ => if tys@.len() == 1 && budget > 0 {
                    match build(types, fns, attr, tys@[0]@, lit, (budget - 1) as nat) {
                        Ok(v) => Ok(IView::Items(seq![v])),
                        Err(e) => Err(e),
                    }
                } else {
                    Err(fail)
                },
            },
            Shape::Enum(vars) => match lit {
                LView::Word(tag) => match variant_index_from(vars@, tag, 0) {
                    Some(k) => match vars@[k].kind {
                        VariantKind::Unit => Ok(IView::Variant(tag, Box::new(IView::Unit))),
                        _ => Err(fail),
                    },
                    None => Err(fail),
                },
                LView::Group(Some(tag), items) => match variant_index_from(vars@, tag, 0) {
                    Some(k) => match vars@[k].kind {
                        VariantKind::Tuple(tys) => if tys@.len() == 1 && items.len() == 1 {
                            match build_newtype(types, fns, attr, tys@[0]@, items[0]) {
                                Ok(v) => Ok(IView::Variant(tag, Box::new(IView::Items(seq![v])))),
                                Err(e) => Err(e),
                            }
                        } else if items.len() <= tys@.len() {
                            match build_items(types, fns, attr, tys@, items) {
                                Ok(v) => Ok(IView::Variant(tag, Box::new(IView::Items(v)))),
                                Err(e) => Err(e),
                            }
                        } else {
                            Err(fail)
                        },
                        _ => Err(fail),
                    },
                    None => Err(fail),
                },
                LView::Record(Some(tag), lfs) => match variant_index_from(vars@, tag, 0) {
                    Some(k) => match vars@[k].kind {
                        VariantKind::Struct(fields) => match build_fields(
                            types,
                            fns,
                            attr,
                            fields@,
                            lfs,
                        ) {
                            Ok(v) => Ok(IView::Variant(tag, Box::new(IView::Record(v)))),
                            Err(e) => Err(e),
                        },
                        _ => Err(fail),
                    },
                    None => Err(fail),
                },
                _ => Err(fail),
            },
            Shape::Value => match leaf_value(d.parser, lit) {
                Some(v) => Ok(v),
                None => match lit {
                    LView::Group(None, items) => if items.len() == 2 {
                        match items[0] {
                            LView::Str(fname) => match find_fn(fns, fname) {
                                None => Err(ErrView::MissingParser(attr)),
                                Some(f) => if f.output@ != ty {
                                    Err(ErrView::InvalidParamType(attr, f.output@))
                                } else {
                                    match build(
                                        types,
                                        fns,
                                        attr,
                                        f.input@,
                                        items[1],
                                        types.len(),
                                    ) {
                                        Ok(a) => Ok(IView::Call(fname, Box::new(a))),
                                        Err(e) => Err(e),
                                    }
                                },
                            },
                            _ => Err(ErrView::MissingParser(attr)),
                        }
                    } else {
                        Err(ErrView::MissingParser(attr))
                    },
                    _ => Err(ErrView::MissingParser(attr)),
                },
            },
        },
    }
}

/// The payload of a variant with one tuple field, built with the field's type.
/// Parentheses around the payload add no nesting: `V(x)`, `V((x))` and
/// `V(((x)))` give the same payload.
pub open spec fn build_newtype(
    types: Seq<TypeDescriptor>,
    fns: Seq<FunctionEntry>,
    attr: Seq<char>,
    fty: Seq<char>,
    x: LView,
) -> Result<IView, ErrView>
    decreases x, types.len() + 1,
{
    match x {
        LView::Group(None, ys) => if ys.len() == 1 {
            build_newtype(types, fns, attr, fty, ys[0])
        } else {
            build(types, fns, attr, fty, x, types.len())
        },
        _ => build(types, fns, attr, fty, x, types.len()),
    }
}

/// The fields of a field map, each built with the type of the declared field of
/// its name, in the order written; the first failure otherwise.
pub open spec fn build_fields(
    types: Seq<TypeDescriptor>,
    fns: Seq<FunctionEntry>,
    attr: Seq<char>,
    fields: Seq<Field>,
    lfs: Seq<(Seq<char>, LView)>,
) -> Result<Seq<(Seq<char>, IView)>, ErrView>
    decreases lfs, 0nat,
{
    if lfs.len() == 0 {
        Ok(Seq::empty())
    } else {
        match build_fields(types, fns, attr, fields, lfs.drop_last()) {
            Err(e) => Err(e),
            Ok(acc) => match field_index_from(fields, lfs.last().0, 0) {
                None => Err(ErrView::DeserializationFailed(attr)),
                Some(j) => match build(
                    types,
                    fns,
                    attr,
                    fields[j].ty@,
                    lfs.last().1,
                    types.len(),
                ) {
                    Ok(v) => Ok(acc.push((lfs.last().0, v))),
                    Err(e) => Err(e),
                },
            },
        }
    }
}

/// The items of a sequence, item `k` built with type `tys[k]`; the first
/// failure otherwise.
pub open spec fn build_items(
    types: Seq<TypeDescriptor>,
    fns: Seq<FunctionEntry>,
    attr: Seq<char>,
    tys: Seq<String>,
    items: Seq<LView>,
) -> Result<Seq<IView>, ErrView>
    decreases items, 0nat,
{
    if items.len() == 0 {
        Ok(Seq::empty())
    } else {
        match build_items(types, fns, attr, tys, items.drop_last()) {
            Err(e) => Err(e),
            Ok(acc) => match build(
                types,
                fns,
                attr,
                tys[items.len() - 1]@,
                items.last(),
                types.len(),
            ) {
                Ok(v) => Ok(acc.push(v)),
                Err(e) => Err(e),
            },
        }
    }
}


/// Reads literals as values of one registered type, for one attribute.
pub struct TypedPartialReflectDeserializer<'a> {
    pub registration: &'a String,
    pub registry: &'a TypeRegistry,
    pub functions: &'a NamedSystemRegistry,
    pub attribute: &'a String,
}

impl<'a> TypedPartialReflectDeserializer<'a> {
    pub fn new(
        registration: &'a String,
        registry: &'a TypeRegistry,
        functions: &'a NamedSystemRegistry,
        attribute: &'a String,
    ) -> (r: Self)
        ensures
            r.registration == registration,
            r.registry == registry,
            r.functions == functions,
            r.attribute == attribute,
    {
        TypedPartialReflectDeserializer { registration, registry, functions, attribute }
    }

    /// The value of the registered type that `lit` denotes; fields that `lit`
    /// leaves out stay unset.
    pub fn deserialize(&self, lit: &Lit) -> (r: Result<Instance, HTMLSceneSpawnError>)
        ensures
            result_model(r) == build(
                self.registry.types@,
                self.functions.entries(),
                self.attribute@,
                self.registration@,
                lit.model(),
                self.registry.types@.len(),
            ),
    {
        construct_lit(
            self.registry,
            self.functions,
            self.attribute,
            self.registration,
            lit,
            self.registry.types.len(),
        )
    }
}

/// The model of a construction result.
pub open spec fn result_model(r: Result<Instance, HTMLSceneSpawnError>) -> Result<IView, ErrView> {
    match r {
        Ok(i) => Ok(i.model()),
        Err(e) => Err(e@),
    }
}

proof fn lemma_fields_err_sticks(
    types: Seq<TypeDescriptor>,
    fns: Seq<FunctionEntry>,
    attr: Seq<char>,
    fields: Seq<Field>,
    lfs: Seq<(Seq<char>, LView)>,
    k: int,
)
    requires
        0 <= k <= lfs.len(),
        build_fields(types, fns, attr, fields, lfs.subrange(0, k)) is Err,
    ensures
        build_fields(types, fns, attr, fields, lfs) == build_fields(
            types,
            fns,
            attr,
            fields,
            lfs.subrange(0, k),
        ),
    decreases lfs.len() - k,
{
    if k < lfs.len() {
        assert(lfs.subrange(0, k + 1).drop_last() =~= lfs.subrange(0, k));
        lemma_fields_err_sticks(types, fns, attr, fields, lfs, k + 1);
    } else {
        assert(lfs.subrange(0, k) =~= lfs);
    }
}

proof fn lemma_items_err_sticks(
    types: Seq<TypeDescriptor>,
    fns: Seq<FunctionEntry>,
    attr: Seq<char>,
    tys: Seq<String>,
    items: Seq<LView>,
    k: int,
)
    requires
        0 <= k <= items.len(),
        build_items(types, fns, attr, tys, items.subrange(0, k)) is Err,
    ensures
        build_items(types, fns, attr, tys, items) == build_items(
            types,
            fns,
            attr,
            tys,
            items.subrange(0, k),
        ),
    decreases items.len() - k,
{
    if k < items.len() {
        assert(items.subrange(0, k + 1).drop_last() =~= items.subrange(0, k));
        lemma_items_err_sticks(types, fns, attr, tys, items, k + 1);
    } else {
        assert(items.subrange(0, k) =~= items);
    }
}

fn field_index(fs: &Vec<Field>, name: &String) -> (r: Option<usize>)
    ensures
        match r {
            Some(i) => field_index_from(fs@, name@, 0) == Some(i as int),
            None => field_index_from(fs@, name@, 0) is None,
        },
{
    let mut k: usize = 0;
    while k < fs.len()
        invariant
            k <= fs@.len(),
            field_index_from(fs@, name@, 0) == field_index_from(fs@, name@, k as int),
        decreases fs@.len() - k,
    {
        if fs[k].name == *name {
            return Some(k);
        }
        k = k + 1;
    }
    None
}

fn variant_index(vs: &Vec<Variant>, name: &String) -> (r: Option<usize>)
    ensures
        match r {
            Some(i) => variant_index_from(vs@, name@, 0) == Some(i as int),
            None => variant_index_from(vs@, name@, 0) is None,
        },
{
    let mut k: usize = 0;
    while k < vs.len()
        invariant
            k <= vs@.len(),
            variant_index_from(vs@, name@, 0) == variant_index_from(vs@, name@, k as int),
        decreases vs@.len() - k,
    {
        if vs[k].name == *name {
            return Some(k);
        }
        k = k + 1;
    }
    None
}

proof fn lemma_index_from_bounds(fs: Seq<Field>, vs: Seq<Variant>, name: Seq<char>, k: int)
    ensures
        field_index_from(fs, name, k) matches Some(i) ==> 0 <= i < fs.len() && fs[i].name@ == name,
        variant_index_from(vs, name, k) matches Some(i) ==> 0 <= i < vs.len() && vs[i].name@
            == name,
    decreases fs.len() + vs.len() - k,
{
    if 0 <= k && (k < fs.len() || k < vs.len()) {
        lemma_index_from_bounds(fs, vs, name, k + 1);
    }
}

/// Reads `lit` with the leaf parser `p`.
pub fn leaf(p: Option<LeafParser>, lit: &Lit) -> (r: Option<Instance>)
    ensures
        match r {
            Some(i) => leaf_value(p, lit.model()) == Some(i.model()),
            None => leaf_value(p, lit.model()) is None,
        },
{
    match (p, lit) {
        (Some(LeafParser::Int), Lit::Int(n)) => Some(Instance::Int(*n)),
        (Some(LeafParser::Text), Lit::Str(s)) => {
            let c = s.clone();
            assert(c@ == s@);
            Some(Instance::Text(c))
        },
        (Some(LeafParser::Color), Lit::Str(t)) => match parse_css_color(t.as_str()) {
            Some((r, g, b, a)) => {
                let mut v: Vec<Instance> = Vec::new();
                v.push(Instance::Int(r as i64));
                v.push(Instance::Int(g as i64));
                v.push(Instance::Int(b as i64));
                v.push(Instance::Int(a as i64));
                let i = Instance::Items(v);
                proof {
                    lemma_items_model_len(v@);
                    assert(items_model(v@) =~= rgba_model((r, g, b, a))->Items_0);
                    lemma_model_shape(i);
                }
                Some(i)
            },
            None => None,
        },
        (Some(LeafParser::Bool), Lit::Word(w)) => {
            let t = String::from_str("true");
            let f = String::from_str("false");
            proof {
                reveal_strlit("true");
                reveal_strlit("false");
                assert(t@ =~= seq!['t', 'r', 'u', 'e']);
                assert(f@ =~= seq!['f', 'a', 'l', 's', 'e']);
            }
            if *w == t {
                Some(Instance::Bool(true))
            } else if *w == f {
                Some(Instance::Bool(false))
            } else {
                None
            }
        },
        _ => None,
    }
}

/// Builds the value of type `ty` that `lit` denotes, for attribute `attr`.
pub fn construct_lit(
    types: &TypeRegistry,
    fns: &NamedSystemRegistry,
    attr: &String,
    ty: &String,
    lit: &Lit,
    budget: usize,
) -> (r: Result<Instance, HTMLSceneSpawnError>)
    ensures
        result_model(r) == build(types.types@, fns.entries(), attr@, ty@, lit.model(), budget as nat),
    decreases lit, budget,
{
    let fail = HTMLSceneSpawnError::DeserializationFailed(attr.clone());
    let full = types.types.len();
    proof {
        match lit {
            Lit::Group(_, items) => {
                lemma_lits_model_len(items@);
            },
            Lit::Record(_, lfs) => {
                lemma_lit_fields_model_len(lfs@);
            },
            _ => {},
        }
    }
    let idx = match types.lookup_index(ty) {
        None => {
            return Err(HTMLSceneSpawnError::UnknownType(ty.clone()));
        },
        Some(i) => i,
    };
    proof {
        crate::registry::lemma_find_type_index(types.types@, ty@);
    }
    let d = &types.types[idx];
    match &d.shape {
        Shape::Struct(fields) => match lit {
            Lit::Record(_, lfs) => match construct_fields(types, fns, attr, fields, lfs) {
                Ok(v) => Ok(Instance::Record(v)),
                Err(e) => Err(e),
            },
            Lit::Group(_, items) => if items.len() == 0 {
                let v: Vec<FieldValue> = Vec::new();
                proof {
                    assert(fields_model(v@) =~= Seq::empty());
                }
                Ok(Instance::Record(v))
            } else {
                Err(fail)
            },
            _ => Err(fail),
        },
        Shape::TupleLike(tys) => match lit {
            Lit::Group(_, items) => if items.len() <= tys.len() {
                match construct_items(types, fns, attr, tys, items) {
                    Ok(v) => Ok(Instance::Items(v)),
                    Err(e) => Err(e),
                }
            } else {
                Err(fail)
            },
            _ => if tys.len() == 1 && budget > 0 {
                match construct_lit(types, fns, attr, &tys[0], lit, budget - 1) {
                    Ok(v) => {
                        let mut out: Vec<Instance> = Vec::new();
                        out.push(v);
                        proof {
                            assert(out@.drop_last() =~= Seq::<Instance>::empty());
                            assert(items_model(Seq::<Instance>::empty()) =~= Seq::empty());
                            assert(items_model(out@) =~= seq![out@[0].model()]);
                        }
                        Ok(Instance::Items(out))
                    },
                    Err(e) => Err(e),
                }
            } else {
                Err(fail)
            },
        },
        Shape::Enum(vars) => {
            proof {
                lemma_index_from_bounds(Seq::empty(), vars@, Seq::empty(), 0);
            }
            match lit {
                Lit::Word(tag) => {
                    proof {
                        lemma_index_from_bounds(Seq::empty(), vars@, tag@, 0);
                    }
                    match variant_index(vars, tag) {
                        Some(k) => match &vars[k].kind {
                            VariantKind::Unit => {
                                let payload = Instance::Unit;
                                assert(payload.model() == IView::Unit);
                                Ok(Instance::Variant(tag.clone(), Box::new(payload)))
                            },
                            _ => Err(fail),
                        },
                        None => Err(fail),
                    }
                },
                Lit::Group(Some(tag), items) => {
                    proof {
                        lemma_index_from_bounds(Seq::empty(), vars@, tag@, 0);
                    }
                    match variant_index(vars, tag) {
                        Some(k) => match &vars[k].kind {
                            VariantKind::Tuple(tys) => if tys.len() == 1 && items.len() == 1 {
                                match construct_newtype(types, fns, attr, &tys[0], &items[0]) {
                                    Ok(v) => {
                                        let mut one: Vec<Instance> = Vec::new();
                                        one.push(v);
                                        proof {
                                            lemma_items_model_len(one@);
                                            assert(items_model(one@) =~= seq![one@[0].model()]);
                                        }
                                        let payload = Instance::Items(one);
                                        assert(payload.model() == IView::Items(items_model(one@)));
                                        Ok(Instance::Variant(tag.clone(), Box::new(payload)))
                                    },
                                    Err(e) => Err(e),
                                }
                            } else if items.len() <= tys.len() {
                                match construct_items(types, fns, attr, tys, items) {
                                    Ok(v) => {
                                        let payload = Instance::Items(v);
                                        assert(payload.model() == IView::Items(items_model(v@)));
                                        Ok(Instance::Variant(tag.clone(), Box::new(payload)))
                                    },
                                    Err(e) => Err(e),
                                }
                            } else {
                                Err(fail)
                            },
                            _ => Err(fail),
                        },
                        None => Err(fail),
                    }
                },
                Lit::Record(Some(tag), lfs) => {
                    proof {
                        lemma_index_from_bounds(Seq::empty(), vars@, tag@, 0);
                    }
                    match variant_index(vars, tag) {
                        Some(k) => match &vars[k].kind {
                            VariantKind::Struct(fields) => match construct_fields(
                                types,
                                fns,
                                attr,
                                fields,
                                lfs,
                            ) {
                                Ok(v) => {
                                    let payload = Instance::Record(v);
                                    assert(payload.model() == IView::Record(fields_model(v@)));
                                    Ok(Instance::Variant(tag.clone(), Box::new(payload)))
                                },
                                Err(e) => Err(e),
                            },
                            _ => Err(fail),
                        },
                        None => Err(fail),
                    }
                },
                _ => Err(fail),
            }
        },
        Shape::Value => match leaf(d.parser, lit) {
            Some(v) => Ok(v),
            None => match lit {
                Lit::Group(None, items) => if items.len() == 2 {
                    match &items[0] {
                        Lit::Str(fname) => match fns.get_type_ids(fname) {
                            None => Err(HTMLSceneSpawnError::MissingParser(attr.clone())),
                            Some((input, output)) => if output != *ty {
                                Err(HTMLSceneSpawnError::InvalidParamType(attr.clone(), output))
                            } else {
                                match construct_lit(types, fns, attr, &input, &items[1], full) {
                                    Ok(a) => Ok(Instance::Call(fname.clone(), Box::new(a))),
                                    Err(e) => Err(e),
                                }
                            },
                        },
                        _ => Err(HTMLSceneSpawnError::MissingParser(attr.clone())),
                    }
                } else {
                    Err(HTMLSceneSpawnError::MissingParser(attr.clone()))
                },
                _ => Err(HTMLSceneSpawnError::MissingParser(attr.clone())),
            },
        },
    }
}

fn construct_newtype(
    types: &TypeRegistry,
    fns: &NamedSystemRegistry,
    attr: &String,
    fty: &String,
    x: &Lit,
) -> (r: Result<Instance, HTMLSceneSpawnError>)
    ensures
        result_model(r) == build_newtype(types.types@, fns.entries(), attr@, fty@, x.model()),
    decreases x, types.types@.len() + 1,
{
    if let Lit::Group(None, ys) = x {
        proof {
            lemma_lits_model_len(ys@);
        }
        if ys.len() == 1 {
            proof {
                assert(decreases_to!(*x => ys@[0]));
            }
            return construct_newtype(types, fns, attr, fty, &ys[0]);
        }
    }
    construct_lit(types, fns, attr, fty, x, types.types.len())
}

fn construct_fields(
    types: &TypeRegistry,
    fns: &NamedSystemRegistry,
    attr: &String,
    fields: &Vec<Field>,
    lfs: &Vec<LitField>,
) -> (r: Result<Vec<FieldValue>, HTMLSceneSpawnError>)
    ensures
        match r {
            Ok(v) => build_fields(
                types.types@,
                fns.entries(),
                attr@,
                fields@,
                lit_fields_model(lfs@),
            ) == Ok::<Seq<(Seq<char>, IView)>, ErrView>(fields_model(v@)),
            Err(e) => build_fields(
                types.types@,
                fns.entries(),
                attr@,
                fields@,
                lit_fields_model(lfs@),
            ) == Err::<Seq<(Seq<char>, IView)>, ErrView>(e@),
        },
    decreases lfs@, 0nat,
{
    let ghost lm = lit_fields_model(lfs@);
    let full = types.types.len();
    let mut acc: Vec<FieldValue> = Vec::new();
    let mut k: usize = 0;
    proof {
        lemma_lit_fields_model_len(lfs@);
        assert(lm.subrange(0, 0) =~= Seq::<(Seq<char>, LView)>::empty());
        assert(fields_model(acc@) =~= Seq::empty());
    }
    while k < lfs.len()
        invariant
            k <= lfs@.len(),
            full == types.types@.len(),
            lm == lit_fields_model(lfs@),
            lm.len() == lfs@.len(),
            forall|i: int| 0 <= i < lfs@.len() ==> #[trigger] lm[i] == (lfs@[i].name@, lfs@[i].value.model()),
            build_fields(types.types@, fns.entries(), attr@, fields@, lm.subrange(0, k as int))
                == Ok::<Seq<(Seq<char>, IView)>, ErrView>(fields_model(acc@)),
        decreases lfs@.len() - k,
    {
        let lf = &lfs[k];
        proof {
            assert(lm.subrange(0, k + 1).drop_last() =~= lm.subrange(0, k as int));
            assert(lm.subrange(0, k + 1).last() == lm[k as int]);
            lemma_index_from_bounds(fields@, Seq::empty(), lf.name@, 0);
        }
        match field_index(fields, &lf.name) {
            None => {
                proof {
                    lemma_fields_err_sticks(types.types@, fns.entries(), attr@, fields@, lm, k + 1);
                }
                return Err(HTMLSceneSpawnError::DeserializationFailed(attr.clone()));
            },
            Some(j) => match construct_lit(types, fns, attr, &fields[j].ty, &lf.value, full) {
                Err(e) => {
                    proof {
                        lemma_fields_err_sticks(
                            types.types@,
                            fns.entries(),
                            attr@,
                            fields@,
                            lm,
                            k + 1,
                        );
                    }
                    return Err(e);
                },
                Ok(v) => {
                    let ghost old_acc = acc@;
                    acc.push(FieldValue { name: lf.name.clone(), value: v });
                    proof {
                        assert(acc@.drop_last() =~= old_acc);
                    }
                },
            },
        }
        k = k + 1;
    }
    proof {
        assert(lm.subrange(0, lfs@.len() as int) =~= lm);
    }
    Ok(acc)
}

fn construct_items(
    types: &TypeRegistry,
    fns: &NamedSystemRegistry,
    attr: &String,
    tys: &Vec<String>,
    items: &Vec<Lit>,
) -> (r: Result<Vec<Instance>, HTMLSceneSpawnError>)
    requires
        items@.len() <= tys@.len(),
    ensures
        match r {
            Ok(v) => build_items(types.types@, fns.entries(), attr@, tys@, lits_model(items@))
                == Ok::<Seq<IView>, ErrView>(items_model(v@)),
            Err(e) => build_items(types.types@, fns.entries(), attr@, tys@, lits_model(items@))
                == Err::<Seq<IView>, ErrView>(e@),
        },
    decreases items@, 0nat,
{
    let ghost lm = lits_model(items@);
    let full = types.types.len();
    let mut acc: Vec<Instance> = Vec::new();
    let mut k: usize = 0;
    proof {
        lemma_lits_model_len(items@);
        assert(lm.subrange(0, 0) =~= Seq::<LView>::empty());
        assert(items_model(acc@) =~= Seq::empty());
    }
    while k < items.len()
        invariant
            k <= items@.len(),
            items@.len() <= tys@.len(),
            full == types.types@.len(),
            lm == lits_model(items@),
            lm.len() == items@.len(),
            forall|i: int| 0 <= i < items@.len() ==> #[trigger] lm[i] == items@[i].model(),
            build_items(types.types@, fns.entries(), attr@, tys@, lm.subrange(0, k as int))
                == Ok::<Seq<IView>, ErrView>(items_model(acc@)),
        decreases items@.len() - k,
    {
        proof {
            assert(lm.subrange(0, k + 1).drop_last() =~= lm.subrange(0, k as int));
            assert(lm.subrange(0, k + 1).last() == lm[k as int]);
        }
        match construct_lit(types, fns, attr, &tys[k], &items[k], full) {
            Err(e) => {
                proof {
                    lemma_items_err_sticks(types.types@, fns.entries(), attr@, tys@, lm, k + 1);
                }
                return Err(e);
            },
            Ok(v) => {
                let ghost old_acc = acc@;
                acc.push(v);
                proof {
                    assert(acc@.drop_last() =~= old_acc);
                }
            },
        }
        k = k + 1;
    }
    proof {
        assert(lm.subrange(0, items@.len() as int) =~= lm);
    }
    Ok(acc)
}

/// What HTML entity decoding makes of a text.
pub uninterp spec fn entities_decoded(s: Seq<char>) -> Seq<char>;

/// Relies on `html_escape::decode_html_entities`: the decoded text depends on
/// the text alone, and a text without `&` comes back as it is.
#[verifier::external_body]
pub(crate) fn decode_entities(s: &str) -> (r: String)
    ensures
        r@ == entities_decoded(s@),
        !s@.contains('&') ==> r@ == s@,
{
    html_escape::decode_html_entities(s).into_owned()
}

/// The value of type `ty` for an attribute written with `value`, or without a
/// value: the default where nothing is written; else the literal's instance laid
/// over the default where there is one.
pub open spec fn constructed(
    types: Seq<TypeDescriptor>,
    fns: Seq<FunctionEntry>,
    attr: Seq<char>,
    ty: Seq<char>,
    value: Option<LView>,
) -> Result<IView, ErrView> {
    match find_type(types, ty) {
        None => Err(ErrView::UnknownType(ty)),
        Some(d) => match value {
            None => match d.default {
                Some(x) => Ok(x.model()),
                None => Err(ErrView::MissingDefault(attr)),
            },
            Some(lit) => match build(types, fns, attr, ty, lit, types.len()) {
                Err(e) => Err(e),
                Ok(p) => match d.default {
                    None => Ok(p),
                    Some(x) => match patched(x.model(), p) {
                        Some(m) => Ok(m),
                        None => Err(ErrView::NonStructPatch(attr)),
                    },
                },
            },
        },
    }
}

/// The reading of an attribute text that a type of this shape takes, given the
/// text read as it stands (`plain`) and read inside an added pair of
/// parentheses (`wrapped`). A struct-shaped type takes the plain reading where
/// it is a field map, else the wrapped one, so that `a: 1, b: 2` may be written
/// without parentheses. Every other shape takes the plain reading: for a
/// tuple-like type a group is read as the sequence, and anything else as the
/// value of a single field.
pub open spec fn chosen_view(shape: Shape, plain: Option<LView>, wrapped: Option<LView>) -> Option<
    LView,
> {
    if shape is Struct {
        match plain {
            Some(LView::Record(_, _)) => plain,
            _ => wrapped,
        }
    } else {
        plain
    }
}

/// The text with entities decoded, inside an added pair of parentheses.
pub open spec fn wrapped_text(raw: Seq<char>) -> Seq<char> {
    seq!['('] + entities_decoded(raw) + seq![')']
}

/// Builds the value of attribute `attr` of type `ty` from a literal, or from
/// nothing where the attribute has no value.
pub fn construct_from_lit(
    types: &TypeRegistry,
    fns: &NamedSystemRegistry,
    attr: &String,
    ty: &String,
    value: Option<&Lit>,
) -> (r: Result<Instance, HTMLSceneSpawnError>)
    ensures
        result_model(r) == constructed(
            types.types@,
            fns.entries(),
            attr@,
            ty@,
            match value {
                Some(l) => Some(l.model()),
                None => None,
            },
        ),
{
    let idx = match types.lookup_index(ty) {
        None => {
            return Err(HTMLSceneSpawnError::UnknownType(ty.clone()));
        },
        Some(i) => i,
    };
    proof {
        crate::registry::lemma_find_type_index(types.types@, ty@);
    }
    let d = &types.types[idx];
    match value {
        None => match &d.default {
            Some(x) => Ok(copy_instance(x)),
            None => Err(HTMLSceneSpawnError::MissingDefault(attr.clone())),
        },
        Some(lit) => match construct_lit(types, fns, attr, ty, lit, types.types.len()) {
            Err(e) => Err(e),
            Ok(p) => match &d.default {
                None => Ok(p),
                Some(x) => match patch(x, &p) {
                    Some(m) => Ok(m),
                    None => Err(HTMLSceneSpawnError::NonStructPatch(attr.clone())),
                },
            },
        },
    }
}

/// Builds the value of attribute `attr` of type `ty` from its raw text: entities
/// decoded, wrapped in parentheses for struct and tuple shapes, read as a literal.
pub fn construct_instance(
    types: &TypeRegistry,
    fns: &NamedSystemRegistry,
    attr: &String,
    ty: &String,
    raw: Option<&str>,
) -> (r: Result<Instance, HTMLSceneSpawnError>)
    ensures
        raw is None ==> result_model(r) == constructed(types.types@, fns.entries(), attr@, ty@, None),
        find_type(types.types@, ty@) is None ==> result_model(r) == Err::<IView, ErrView>(
            ErrView::UnknownType(ty@),
        ),
        raw is Some && find_type(types.types@, ty@) is Some ==> ({
            let raw_text = raw->0@;
            match chosen_view(
                find_type(types.types@, ty@)->0.shape,
                notation_of(entities_decoded(raw_text)),
                notation_of(wrapped_text(raw_text)),
            ) {
                None => result_model(r) == Err::<IView, ErrView>(
                    ErrView::DeserializationFailed(attr@),
                ),
                Some(v) => result_model(r) == constructed(
                    types.types@,
                    fns.entries(),
                    attr@,
                    ty@,
                    Some(v),
                ),
            }
        }),
{
    let text = match raw {
        None => {
            return construct_from_lit(types, fns, attr, ty, None);
        },
        Some(t) => t,
    };
    let idx = match types.lookup_index(ty) {
        None => {
            return Err(HTMLSceneSpawnError::UnknownType(ty.clone()));
        },
        Some(i) => i,
    };
    proof {
        crate::registry::lemma_find_type_index(types.types@, ty@);
    }
    let decoded = decode_entities(text);
    let is_struct = match &types.types[idx].shape {
        Shape::Struct(_) => true,
        _ => false,
    };
    let plain = parse_notation(decoded.as_str());
    let take_plain = match &plain {
        Some(Lit::Record(_, _)) => true,
        _ => !is_struct,
    };
    let lit = if take_plain {
        plain
    } else {
        let mut w = String::from_str("(");
        w.append(decoded.as_str());
        w.append(")");
        proof {
            reveal_strlit("(");
            reveal_strlit(")");
            assert(w@ =~= seq!['('] + decoded@ + seq![')']);
        }
        parse_notation(w.as_str())
    };
    match lit {
        None => Err(HTMLSceneSpawnError::DeserializationFailed(attr.clone())),
        Some(l) => {
            let r = construct_from_lit(types, fns, attr, ty, Some(&l));
            proof {
                assert(result_model(r) == constructed(
                    types.types@,
                    fns.entries(),
                    attr@,
                    ty@,
                    Some(l.model()),
                ));
            }
            r
        },
    }
}

/// The fields of the default of type `ty`, where it is struct-shaped.
pub open spec fn default_fields(types: Seq<TypeDescriptor>, ty: Seq<char>) -> Seq<(Seq<char>, IView)> {
    find_type(types, ty)->0.default->0.model()->Record_0
}

/// The fields that a literal builds to, where it builds to a struct-shaped value.
pub open spec fn built_fields(
    types: Seq<TypeDescriptor>,
    fns: Seq<FunctionEntry>,
    attr: Seq<char>,
    ty: Seq<char>,
    lit: LView,
) -> Seq<(Seq<char>, IView)> {
    build(types, fns, attr, ty, lit, types.len())->Ok_0->Record_0
}

/// Partial patch: where type `ty` has a struct-shaped default with distinct
/// fields, and `lit` builds distinct fields with leaf values, the constructed
/// value keeps every field of the default, holds the value built for a field
/// where `lit` writes it, and the default's value where it does not.
pub proof fn lemma_construct_partial(
    types: Seq<TypeDescriptor>,
    fns: Seq<FunctionEntry>,
    attr: Seq<char>,
    ty: Seq<char>,
    lit: LView,
)
    requires
        find_type(types, ty) matches Some(d) && d.default matches Some(x) && x.model() is Record,
        keys_unique(default_fields(types, ty)),
        build(types, fns, attr, ty, lit, types.len()) matches Ok(p) && p is Record,
        keys_unique(built_fields(types, fns, attr, ty, lit)),
        forall|j: int|
            0 <= j < built_fields(types, fns, attr, ty, lit).len() ==> is_leaf(
                #[trigger] built_fields(types, fns, attr, ty, lit)[j].1,
            ),
    ensures
        ({
            let dfs = default_fields(types, ty);
            let pfs = built_fields(types, fns, attr, ty, lit);
            constructed(types, fns, attr, ty, Some(lit)) matches Ok(v) && v is Record && ({
                let r = v->Record_0;
                &&& r.len() == dfs.len()
                &&& forall|i: int| 0 <= i < dfs.len() ==> (#[trigger] r[i]).0 == dfs[i].0
                &&& forall|i: int, j: int|
                    0 <= i < dfs.len() && 0 <= j < pfs.len() && pfs[j].0 == dfs[i].0 ==> (
                    #[trigger] r[i]).1 == (#[trigger] pfs[j]).1
                &&& forall|i: int|
                    0 <= i < dfs.len() && (forall|j: int|
                        0 <= j < pfs.len() ==> (#[trigger] pfs[j]).0 != dfs[i].0) ==> (
                    #[trigger] r[i]).1 == dfs[i].1
            })
        }),
{
    lemma_partial_patch(default_fields(types, ty), built_fields(types, fns, attr, ty, lit));
}

/// Field-level patch, for values of any shape: where type `ty` has a
/// struct-shaped default with distinct fields, and `lit` builds distinct
/// fields, a successful construction keeps every field of the default; a field
/// that `lit` writes holds the built value laid over the default's value for
/// it (the built value itself where that is a leaf), and a field that `lit`
/// does not write holds the default's value. No field's value depends on what
/// is written for another.
pub proof fn lemma_construct_patch(
    types: Seq<TypeDescriptor>,
    fns: Seq<FunctionEntry>,
    attr: Seq<char>,
    ty: Seq<char>,
    lit: LView,
)
    requires
        find_type(types, ty) matches Some(d) && d.default matches Some(x) && x.model() is Record,
        keys_unique(default_fields(types, ty)),
        build(types, fns, attr, ty, lit, types.len()) matches Ok(p) && p is Record,
        keys_unique(built_fields(types, fns, attr, ty, lit)),
    ensures
        ({
            let dfs = default_fields(types, ty);
            let pfs = built_fields(types, fns, attr, ty, lit);
            constructed(types, fns, attr, ty, Some(lit)) matches Ok(v) ==> v is Record && ({
                let r = v->Record_0;
                &&& r.len() == dfs.len()
                &&& forall|i: int| 0 <= i < dfs.len() ==> (#[trigger] r[i]).0 == dfs[i].0
                &&& forall|i: int, j: int|
                    0 <= i < dfs.len() && 0 <= j < pfs.len() && pfs[j].0 == dfs[i].0 ==> patched(
                        dfs[i].1,
                        (#[trigger] pfs[j]).1,
                    ) == Some((#[trigger] r[i]).1)
                &&& forall|i: int|
                    0 <= i < dfs.len() && (forall|j: int|
                        0 <= j < pfs.len() ==> (#[trigger] pfs[j]).0 != dfs[i].0) ==> (
                    #[trigger] r[i]).1 == dfs[i].1
            })
        }),
{
    lemma_patch_fields_nested(default_fields(types, ty), built_fields(types, fns, attr, ty, lit));
}

/// Round trip: where type `ty` has a struct-shaped default with distinct fields,
/// and `lit` writes every one of them, in order, with leaf values, the
/// constructed value holds exactly the values built from `lit`.
pub proof fn lemma_construct_full(
    types: Seq<TypeDescriptor>,
    fns: Seq<FunctionEntry>,
    attr: Seq<char>,
    ty: Seq<char>,
    lit: LView,
)
    requires
        find_type(types, ty) matches Some(d) && d.default matches Some(x) && x.model() is Record,
        keys_unique(default_fields(types, ty)),
        build(types, fns, attr, ty, lit, types.len()) matches Ok(p) && p is Record,
        built_fields(types, fns, attr, ty, lit).len() == default_fields(types, ty).len(),
        forall|i: int|
            0 <= i < default_fields(types, ty).len() ==> (#[trigger] built_fields(
                types,
                fns,
                attr,
                ty,
                lit,
            )[i]).0 == default_fields(types, ty)[i].0,
        forall|j: int|
            0 <= j < built_fields(types, fns, attr, ty, lit).len() ==> is_leaf(
                #[trigger] built_fields(types, fns, attr, ty, lit)[j].1,
            ),
    ensures
        constructed(types, fns, attr, ty, Some(lit)) == build(types, fns, attr, ty, lit, types.len()),
{
    lemma_full_patch(default_fields(types, ty), built_fields(types, fns, attr, ty, lit));
}

/// Newtype shorthand: the payload of a variant with exactly one tuple field is
/// built as a value of that field's type directly, and the variant holds it as
/// its one item. Writing the payload inside a further pair of parentheses gives
/// the same value.
pub proof fn lemma_newtype_variant(
    types: Seq<TypeDescriptor>,
    fns: Seq<FunctionEntry>,
    attr: Seq<char>,
    ty: Seq<char>,
    tag: Seq<char>,
    x: LView,
    budget: nat,
)
    requires
        find_type(types, ty) is Some,
        find_type(types, ty)->0.shape is Enum,
        variant_index_from(find_type(types, ty)->0.shape->Enum_0@, tag, 0) is Some,
        ({
            let vars = find_type(types, ty)->0.shape->Enum_0@;
            let k = variant_index_from(vars, tag, 0)->0;
            0 <= k < vars.len() && vars[k].kind is Tuple && vars[k].kind->Tuple_0@.len() == 1
        }),
    ensures
        ({
            let vars = find_type(types, ty)->0.shape->Enum_0@;
            let k = variant_index_from(vars, tag, 0)->0;
            let fty = vars[k].kind->Tuple_0@[0]@;
            let bare = LView::Group(Some(tag), seq![x]);
            let wrapped = LView::Group(Some(tag), seq![LView::Group(None, seq![x])]);
            &&& build(types, fns, attr, ty, bare, budget) == match build_newtype(
                types,
                fns,
                attr,
                fty,
                x,
            ) {
                Ok(p) => Ok(IView::Variant(tag, Box::new(IView::Items(seq![p])))),
                Err(e) => Err(e),
            }
            &&& build(types, fns, attr, ty, wrapped, budget) == build(types, fns, attr, ty, bare, budget)
            &&& !(x matches LView::Group(None, ys) && ys.len() == 1) ==> build_newtype(
                types,
                fns,
                attr,
                fty,
                x,
            ) == build(types, fns, attr, fty, x, types.len())
        }),
{
    let vars = find_type(types, ty)->0.shape->Enum_0@;
    let k = variant_index_from(vars, tag, 0)->0;
    let fty = vars[k].kind->Tuple_0@[0]@;
    let inner = LView::Group(None, seq![x]);
    assert(seq![x].len() == 1 && seq![x][0] == x);
    assert(seq![inner].len() == 1 && seq![inner][0] == inner);
    assert(build_newtype(types, fns, attr, fty, inner) == build_newtype(types, fns, attr, fty, x));
}

} // verus!
