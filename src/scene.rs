//! Elements of a document, and their assembly into facet sets.
use vstd::prelude::*;
use crate::construct::{
    construct_from_lit, chosen_view, constructed, decode_entities, entities_decoded,
};
use crate::error::{ErrView, HTMLSceneSpawnError};
use crate::named_system_registry::{FunctionEntry, NamedSystemRegistry};
use crate::instance::{FieldValue, IView, Instance, fields_model, lemma_fields_model_len};
use crate::notation::{LView, Lit, notation_of, parse_notation};
use crate::registry::{Shape, TypeDescriptor, TypeRegistry, find_type, resolve_name, resolved_name};

verus! {

/// An attribute as written: its name and, if given, its raw text.
#[derive(Debug, Clone, PartialEq, Eq)]
pub struct Attribute {
    pub name: String,
    pub value: Option<String>,
}

/// One element of a document as written.
#[derive(Debug, PartialEq, Eq)]
pub struct Element {
    pub tag: String,
    pub attributes: Vec<Attribute>,
    pub id: Option<String>,
    pub children: Vec<Element>,
    /// Literal text content.
    pub text: Option<String>,
}

/// An attribute text, entities decoded, read as a literal as it stands and
/// inside an added pair of parentheses; `None` where the text does not read.
#[derive(Debug, PartialEq, Eq)]
pub struct ReadValue {
    pub plain: Option<Lit>,
    pub wrapped: Option<Lit>,
}

#[derive(Debug, PartialEq, Eq)]
pub struct ReadAttribute {
    pub name: String,
    pub value: Option<ReadValue>,
}

/// An element whose attribute texts have been read.
#[derive(Debug, PartialEq, Eq)]
pub struct ReadElement {
    pub tag: String,
    pub attributes: Vec<ReadAttribute>,
    pub id: Option<String>,
    pub children: Vec<ReadElement>,
    pub text: Option<String>,
}

/// One typed instance attached to a node, keyed by its type name.
#[derive(Debug, PartialEq, Eq)]
pub struct Facet {
    pub ty: String,
    pub value: Instance,
}

/// Type name to instance; a later facet of the same type wins.
pub open spec fn facet_map(fs: Seq<Facet>) -> Map<Seq<char>, IView>
    decreases fs.len(),
{
    if fs.len() == 0 {
        Map::empty()
    } else {
        facet_map(fs.drop_last()).insert(fs.last().ty@, fs.last().value.model())
    }
}

pub open spec fn opt_lit_model(o: Option<Lit>) -> Option<LView> {
    match o {
        Some(l) => Some(l.model()),
        None => None,
    }
}

/// Whether `rv` is what reading the raw text `raw` gives.
pub open spec fn read_from(rv: ReadValue, raw: Seq<char>) -> bool {
    &&& opt_lit_model(rv.plain) == notation_of(entities_decoded(raw))
    &&& opt_lit_model(rv.wrapped) == notation_of(seq!['('] + entities_decoded(raw) + seq![')'])
}

/// Reads an attribute text.
pub fn read_value(raw: &str) -> (r: ReadValue)
    ensures
        read_from(r, raw@),
{
    let decoded = decode_entities(raw);
    let plain = parse_notation(decoded.as_str());
    let mut w = String::from_str("(");
    w.append(decoded.as_str());
    w.append(")");
    proof {
        reveal_strlit("(");
        reveal_strlit(")");
        assert(w@ =~= seq!['('] + decoded@ + seq![')']);
    }
    let wrapped = parse_notation(w.as_str());
    ReadValue { plain, wrapped }
}

/// Whether `r` is `el` with every attribute text read.
pub open spec fn read_tree(r: ReadElement, el: Element) -> bool
    decreases el, 1nat,
{
    &&& r.tag@ == el.tag@
    &&& r.attributes@.len() == el.attributes@.len()
    &&& forall|i: int|
        0 <= i < r.attributes@.len() ==> (#[trigger] r.attributes@[i]).name@
            == el.attributes@[i].name@ && match el.attributes@[i].value {
            Some(t) => r.attributes@[i].value matches Some(rv) && read_from(rv, t@),
            None => r.attributes@[i].value is None,
        }
    &&& r.id == el.id
    &&& r.text == el.text
    &&& read_forest(r.children@, el.children@)
}

pub open spec fn read_forest(rs: Seq<ReadElement>, es: Seq<Element>) -> bool
    decreases es, 0nat,
{
    rs.len() == es.len() && (es.len() == 0 || (read_forest(rs.drop_last(), es.drop_last())
        && read_tree(rs.last(), es.last())))
}

/// Reads every attribute text of a document.
pub fn read_element(el: &Element) -> (r: ReadElement)
    ensures
        read_tree(r, *el),
    decreases el,
{
    let mut attributes: Vec<ReadAttribute> = Vec::new();
    let mut i: usize = 0;
    while i < el.attributes.len()
        invariant
            i <= el.attributes@.len(),
            attributes@.len() == i,
            forall|j: int|
                0 <= j < i ==> (#[trigger] attributes@[j]).name@ == el.attributes@[j].name@
                    && match el.attributes@[j].value {
                    Some(t) => attributes@[j].value matches Some(rv) && read_from(rv, t@),
                    None => attributes@[j].value is None,
                },
        decreases el.attributes@.len() - i,
    {
        let a = &el.attributes[i];
        let value = match &a.value {
            Some(t) => Some(read_value(t.as_str())),
            None => None,
        };
        attributes.push(ReadAttribute { name: a.name.clone(), value });
        i = i + 1;
    }
    let mut children: Vec<ReadElement> = Vec::new();
    let mut k: usize = 0;
    proof {
        assert(el.children@.subrange(0, 0) =~= Seq::<Element>::empty());
    }
    while k < el.children.len()
        invariant
            k <= el.children@.len(),
            children@.len() == k,
            read_forest(children@, el.children@.subrange(0, k as int)),
        decreases el.children@.len() - k,
    {
        proof {
            assert(decreases_to!(el.children => el.children[k as int]));
        }
        let c = read_element(&el.children[k]);
        let ghost before = children@;
        children.push(c);
        proof {
            assert(children@.drop_last() =~= before);
            assert(el.children@.subrange(0, k + 1).drop_last() =~= el.children@.subrange(0, k as int));
        }
        k = k + 1;
    }
    proof {
        assert(el.children@.subrange(0, k as int) =~= el.children@);
    }
    ReadElement {
        tag: el.tag.clone(),
        attributes,
        id: el.id.clone(),
        children,
        text: el.text.clone(),
    }
}

/// The facets gathered so far, and the text style.
pub type Gathered = (Map<Seq<char>, IView>, Option<IView>);

/// From position `j` on, the value of the first attribute named `x`, if any.
pub open spec fn placeholder_from(attrs: Seq<ReadAttribute>, j: int) -> Option<Option<ReadValue>>
    decreases attrs.len() - j,
{
    if j < 0 || j >= attrs.len() {
        None
    } else if attrs[j].name@ == "x"@ {
        Some(attrs[j].value)
    } else {
        placeholder_from(attrs, j + 1)
    }
}

/// The number of entries an element is processed as: its tag, then its attributes.
pub open spec fn entry_count(el: ReadElement) -> nat {
    el.attributes@.len() + 1
}

/// Entry `k` of an element: name, value, and whether it is the tag. The tag
/// comes first, with the value of the placeholder attribute `x` if there is one.
pub open spec fn entry(el: ReadElement, k: int) -> (Seq<char>, Option<ReadValue>, bool) {
    if k == 0 {
        (
            el.tag@,
            match placeholder_from(el.attributes@, 0) {
                Some(v) => v,
                None => None,
            },
            true,
        )
    } else {
        (el.attributes@[k - 1].name@, el.attributes@[k - 1].value, false)
    }
}

/// The literal that an entry's value is read as for a type of shape `shape`:
/// `Ok(None)` where there is no value, `Err` where the text did not read.
pub open spec fn chosen_lit(shape: Shape, value: Option<ReadValue>) -> Result<Option<LView>, ()> {
    match value {
        None => Ok(None),
        Some(rv) => match chosen_view(shape, opt_lit_model(rv.plain), opt_lit_model(rv.wrapped)) {
            Some(x) => Ok(Some(x)),
            None => Err(()),
        },
    }
}

/// The first `k` entries of `el` applied to `acc`. `depth` bounds nested template expansion.
pub open spec fn gathered_upto(
    types: Seq<TypeDescriptor>,
    fns: Seq<FunctionEntry>,
    el: ReadElement,
    k: nat,
    depth: nat,
    acc: Gathered,
) -> Result<Gathered, ErrView>
    decreases depth, k,
{
    if k == 0 {
        Ok(acc)
    } else {
        match gathered_upto(types, fns, el, (k - 1) as nat, depth, acc) {
            Err(e) => Err(e),
            Ok(a) => {
                let (name, value, is_tag) = entry(el, k - 1);
                gathered_step(types, fns, name, value, is_tag, depth, a)
            },
        }
    }
}

/// One entry applied to `acc`. `Entity` and `x` are markers; `TextStyle` with a
/// value sets the text style; any other name is a type whose instance becomes a
/// facet, or, for a template type, whose subtree's entries are applied in turn.
pub open spec fn gathered_step(
    types: Seq<TypeDescriptor>,
    fns: Seq<FunctionEntry>,
    name: Seq<char>,
    value: Option<ReadValue>,
    is_tag: bool,
    depth: nat,
    acc: Gathered,
) -> Result<Gathered, ErrView>
    decreases depth, 0nat,
{
    if name == "Entity"@ || name == "x"@ {
        Ok(acc)
    } else {
        let ty = resolved_name(name);
        match find_type(types, ty) {
            None => if is_tag {
                Err(ErrView::UnknownTag(name))
            } else {
                Err(ErrView::UnknownType(ty))
            },
            Some(d) => match chosen_lit(d.shape, value) {
                Err(_) => Err(ErrView::DeserializationFailed(name)),
                Ok(lit) => match constructed(types, fns, name, ty, lit) {
                    Err(e) => Err(e),
                    Ok(v) => if name == "TextStyle"@ && value is Some {
                        Ok((acc.0, Some(v)))
                    } else {
                        match d.template {
                            Some(t) => if depth == 0 {
                                Err(ErrView::DeserializationFailed(name))
                            } else {
                                gathered_upto(
                                    types,
                                    fns,
                                    t,
                                    entry_count(t),
                                    (depth - 1) as nat,
                                    acc,
                                )
                            },
                            None => Ok((acc.0.insert(ty, v), acc.1)),
                        }
                    },
                },
            },
        }
    }
}

/// The text style, or unit where none was given.
pub open spec fn style_or_unit(style: Option<IView>) -> IView {
    match style {
        Some(s) => s,
        None => IView::Unit,
    }
}

/// The model of the text facet.
pub open spec fn text_facet(t: Seq<char>, style: Option<IView>) -> IView {
    IView::Record(seq![("text"@, IView::Text(t)), ("style"@, style_or_unit(style))])
}

/// The facet set of an element: its entries applied to nothing, then, for an
/// element with text and no child elements, a `Text` facet.
pub open spec fn element_facets(types: Seq<TypeDescriptor>, fns: Seq<FunctionEntry>, el: ReadElement) -> Result<
    Map<Seq<char>, IView>,
    ErrView,
> {
    match gathered_upto(types, fns, el, entry_count(el), types.len(), (Map::empty(), None)) {
        Err(e) => Err(e),
        Ok(g) => if el.children@.len() == 0 && el.text is Some {
            Ok(g.0.insert("Text"@, text_facet(el.text->0@, g.1)))
        } else {
            Ok(g.0)
        },
    }
}

pub proof fn lemma_gathered_err_sticks(
    types: Seq<TypeDescriptor>,
    fns: Seq<FunctionEntry>,
    el: ReadElement,
    k: nat,
    n: nat,
    depth: nat,
    acc: Gathered,
)
    requires
        k <= n,
        gathered_upto(types, fns, el, k, depth, acc) is Err,
    ensures
        gathered_upto(types, fns, el, n, depth, acc) == gathered_upto(types, fns, el, k, depth, acc),
    decreases n - k,
{
    if k < n {
        lemma_gathered_err_sticks(types, fns, el, k, (n - 1) as nat, depth, acc);
    }
}

proof fn lemma_facet_map_push(fs: Seq<Facet>, f: Facet)
    ensures
        facet_map(fs.push(f)) == facet_map(fs).insert(f.ty@, f.value.model()),
{
    assert(fs.push(f).drop_last() =~= fs);
}

fn str_is(s: &String, lit: &str) -> (r: bool)
    ensures
        r == (s@ == lit@),
{
    let t = String::from_str(lit);
    *s == t
}

/// Applies entry `(name, value)` to the gathered facets and style.
fn gather_step(
    types: &TypeRegistry,
    fns: &NamedSystemRegistry,
    name: &String,
    value: Option<&ReadValue>,
    is_tag: bool,
    depth: usize,
    facets: &mut Vec<Facet>,
    style: &mut Option<Instance>,
) -> (r: Result<(), HTMLSceneSpawnError>)
    ensures
        match gathered_step(
            types.types@,
            fns.entries(),
            name@,
            match value {
                Some(v) => Some(*v),
                None => None,
            },
            is_tag,
            depth as nat,
            (facet_map(old(facets)@), opt_model(*old(style))),
        ) {
            Ok(g) => r is Ok && g == (facet_map(final(facets)@), opt_model(*final(style))),
            Err(e) => r matches Err(x) && x@ == e,
        },
    decreases depth, 0nat,
{
    if str_is(name, "Entity") || str_is(name, "x") {
        return Ok(());
    }
    let ty = resolve_name(name.as_str());
    let idx = match types.lookup_index(&ty) {
        None => {
            if is_tag {
                return Err(HTMLSceneSpawnError::UnknownTag(name.clone()));
            } else {
                return Err(HTMLSceneSpawnError::UnknownType(ty));
            }
        },
        Some(i) => i,
    };
    proof {
        crate::registry::lemma_find_type_index(types.types@, ty@);
    }
    let d = &types.types[idx];
    let lit: Option<&Lit> = match value {
        None => None,
        Some(rv) => {
            let is_struct = match &d.shape {
                Shape::Struct(_) => true,
                _ => false,
            };
            let take_plain = match &rv.plain {
                Some(Lit::Record(_, _)) => true,
                _ => !is_struct,
            };
            let l = if take_plain {
                &rv.plain
            } else {
                &rv.wrapped
            };
            match l {
                Some(x) => Some(x),
                None => {
                    return Err(HTMLSceneSpawnError::DeserializationFailed(name.clone()));
                },
            }
        },
    };
    let v = match construct_from_lit(types, fns, name, &ty, lit) {
        Err(e) => {
            return Err(e);
        },
        Ok(v) => v,
    };
    if str_is(name, "TextStyle") && value.is_some() {
        *style = Some(v);
        return Ok(());
    }
    match &d.template {
        Some(t) => {
            if depth == 0 {
                return Err(HTMLSceneSpawnError::DeserializationFailed(name.clone()));
            }
            gather_entries(types, fns, t, depth - 1, facets, style)
        },
        None => {
            proof {
                lemma_facet_map_push(facets@, Facet { ty, value: v });
            }
            facets.push(Facet { ty, value: v });
            Ok(())
        },
    }
}

pub open spec fn opt_model(o: Option<Instance>) -> Option<IView> {
    match o {
        Some(i) => Some(i.model()),
        None => None,
    }
}

/// Applies every entry of `el` to the gathered facets and style.
fn gather_entries(
    types: &TypeRegistry,
    fns: &NamedSystemRegistry,
    el: &ReadElement,
    depth: usize,
    facets: &mut Vec<Facet>,
    style: &mut Option<Instance>,
) -> (r: Result<(), HTMLSceneSpawnError>)
    ensures
        match gathered_upto(
            types.types@,
            fns.entries(),
            *el,
            entry_count(*el),
            depth as nat,
            (facet_map(old(facets)@), opt_model(*old(style))),
        ) {
            Ok(g) => r is Ok && g == (facet_map(final(facets)@), opt_model(*final(style))),
            Err(e) => r matches Err(x) && x@ == e,
        },
    decreases depth, 1nat,
{
    let ghost acc0 = (facet_map(facets@), opt_model(*style));
    let n = el.attributes.len();
    let mut value: Option<&ReadValue> = None;
    let mut j: usize = 0;
    let mut found = false;
    while j < n && !found
        invariant
            n == el.attributes@.len(),
            j <= n,
            acc0 == (facet_map(old(facets)@), opt_model(*old(style))),
            facets@ == old(facets)@,
            *style == *old(style),
            !found ==> placeholder_from(el.attributes@, 0) == placeholder_from(
                el.attributes@,
                j as int,
            ),
            !found ==> value is None,
            found ==> placeholder_from(el.attributes@, 0) == Some(
                match value {
                    Some(v) => Some(*v),
                    None => None,
                },
            ),
        decreases n - j + (if found {
            0int
        } else {
            1int
        }),
    {
        if str_is(&el.attributes[j].name, "x") {
            value = match &el.attributes[j].value {
                Some(v) => Some(v),
                None => None,
            };
            found = true;
        } else {
            j = j + 1;
        }
    }
    proof {
        assert(entry(*el, 0) == (
            el.tag@,
            match value {
                Some(v) => Some(*v),
                None => None,
            },
            true,
        ));
    }
    proof {
        assert(gathered_upto(types.types@, fns.entries(), *el, 0, depth as nat, acc0) == Ok::<
            Gathered,
            ErrView,
        >(acc0));
        assert(gathered_upto(types.types@, fns.entries(), *el, 1, depth as nat, acc0)
            == gathered_step(
            types.types@,
            fns.entries(),
            el.tag@,
            match value {
                Some(v) => Some(*v),
                None => None,
            },
            true,
            depth as nat,
            acc0,
        ));
    }
    match gather_step(types, fns, &el.tag, value, true, depth, facets, style) {
        Err(e) => {
            proof {
                lemma_gathered_err_sticks(
                    types.types@,
                    fns.entries(),
                    *el,
                    1,
                    entry_count(*el),
                    depth as nat,
                    acc0,
                );
            }
            return Err(e);
        },
        Ok(()) => {},
    }
    let mut k: usize = 0;
    while k < n
        invariant
            n == el.attributes@.len(),
            k <= n,
            acc0 == (facet_map(old(facets)@), opt_model(*old(style))),
            gathered_upto(types.types@, fns.entries(), *el, (k + 1) as nat, depth as nat, acc0)
                == Ok::<Gathered, ErrView>((facet_map(facets@), opt_model(*style))),
        decreases n - k,
    {
        let a = &el.attributes[k];
        let value: Option<&ReadValue> = match &a.value {
            Some(v) => Some(v),
            None => None,
        };
        proof {
            assert(entry(*el, k + 1) == (
                a.name@,
                match value {
                    Some(v) => Some(*v),
                    None => None,
                },
                false,
            ));
        }
        match gather_step(types, fns, &a.name, value, false, depth, facets, style) {
            Err(e) => {
                proof {
                    let k2 = (k + 2) as nat;
                    assert((k2 - 1) as nat == (k + 1) as nat);
                    assert(gathered_upto(types.types@, fns.entries(), *el, k2, depth as nat, acc0)
                        == Err::<Gathered, ErrView>(e@));
                    lemma_gathered_err_sticks(
                        types.types@,
                        fns.entries(),
                        *el,
                        (k + 2) as nat,
                        entry_count(*el),
                        depth as nat,
                        acc0,
                    );
                }
                return Err(e);
            },
            Ok(()) => {},
        }
        k = k + 1;
    }
    Ok(())
}

/// An assembled element: its facets, its identifier and its assembled children.
#[derive(Debug, PartialEq, Eq)]
pub struct Plan {
    pub facets: Vec<Facet>,
    pub id: Option<String>,
    pub children: Vec<Plan>,
}

/// The mathematical model of a [`Plan`].
pub struct PlanView {
    pub facets: Map<Seq<char>, IView>,
    pub id: Option<Seq<char>>,
    pub children: Seq<PlanView>,
}

pub open spec fn opt_str(o: Option<String>) -> Option<Seq<char>> {
    match o {
        Some(s) => Some(s@),
        None => None,
    }
}

pub open spec fn plans_model(s: Seq<Plan>) -> Seq<PlanView>
    decreases s,
{
    if s.len() == 0 {
        Seq::empty()
    } else {
        plans_model(s.drop_last()).push(s.last().model())
    }
}

impl Plan {
    pub open spec fn model(&self) -> PlanView
        decreases self,
    {
        PlanView {
            facets: facet_map(self.facets@),
            id: opt_str(self.id),
            children: plans_model(self.children@),
        }
    }
}

/// What an element assembles to: its facet set, its identifier, and each child
/// element assembled in document order; else the first failure, the element's
/// own before its children's.
pub open spec fn assembled(types: Seq<TypeDescriptor>, fns: Seq<FunctionEntry>, el: ReadElement) -> Result<
    PlanView,
    ErrView,
>
    decreases el, 1nat,
{
    match element_facets(types, fns, el) {
        Err(e) => Err(e),
        Ok(m) => match assembled_children(types, fns, el.children@) {
            Err(e) => Err(e),
            Ok(cs) => Ok(PlanView { facets: m, id: opt_str(el.id), children: cs }),
        },
    }
}

pub open spec fn assembled_children(
    types: Seq<TypeDescriptor>,
    fns: Seq<FunctionEntry>,
    cs: Seq<ReadElement>,
) -> Result<Seq<PlanView>, ErrView>
    decreases cs, 0nat,
{
    if cs.len() == 0 {
        Ok(Seq::empty())
    } else {
        match assembled_children(types, fns, cs.drop_last()) {
            Err(e) => Err(e),
            Ok(acc) => match assembled(types, fns, cs.last()) {
                Err(e) => Err(e),
                Ok(p) => Ok(acc.push(p)),
            },
        }
    }
}

proof fn lemma_children_err_sticks(
    types: Seq<TypeDescriptor>,
    fns: Seq<FunctionEntry>,
    cs: Seq<ReadElement>,
    k: int,
)
    requires
        0 <= k <= cs.len(),
        assembled_children(types, fns, cs.subrange(0, k)) is Err,
    ensures
        assembled_children(types, fns, cs) == assembled_children(types, fns, cs.subrange(0, k)),
    decreases cs.len() - k,
{
    if k < cs.len() {
        assert(cs.subrange(0, k + 1).drop_last() =~= cs.subrange(0, k));
        lemma_children_err_sticks(types, fns, cs, k + 1);
    } else {
        assert(cs.subrange(0, k) =~= cs);
    }
}

fn text_instance(t: &String, style: Option<Instance>) -> (r: Instance)
    ensures
        r.model() == text_facet(t@, opt_model(style)),
{
    let s = match style {
        Some(i) => i,
        None => Instance::Unit,
    };
    let mut fs: Vec<FieldValue> = Vec::new();
    fs.push(FieldValue { name: String::from_str("text"), value: Instance::Text(t.clone()) });
    fs.push(FieldValue { name: String::from_str("style"), value: s });
    proof {
        lemma_fields_model_len(fs@);
        assert(fields_model(fs@) =~= seq![
            ("text"@, IView::Text(t@)),
            ("style"@, style_or_unit(opt_model(style))),
        ]);
    }
    let r = Instance::Record(fs);
    assert(r.model() == IView::Record(fields_model(fs@)));
    r
}

/// The facet set of one element, without its children.
pub fn assemble_facets(types: &TypeRegistry, fns: &NamedSystemRegistry, el: &ReadElement) -> (r:
    Result<Vec<Facet>, HTMLSceneSpawnError>)
    ensures
        match element_facets(types.types@, fns.entries(), *el) {
            Ok(m) => r matches Ok(v) && facet_map(v@) == m,
            Err(e) => r matches Err(x) && x@ == e,
        },
{
    let mut facets: Vec<Facet> = Vec::new();
    let mut style: Option<Instance> = None;
    proof {
        assert(facet_map(facets@) == Map::<Seq<char>, IView>::empty());
    }
    match gather_entries(types, fns, el, types.types.len(), &mut facets, &mut style) {
        Err(e) => {
            return Err(e);
        },
        Ok(()) => {},
    }
    if el.children.len() == 0 {
        if let Some(t) = &el.text {
            let v = text_instance(t, style);
            let f = Facet { ty: String::from_str("Text"), value: v };
            proof {
                lemma_facet_map_push(facets@, f);
            }
            facets.push(f);
        }
    }
    Ok(facets)
}

/// Assembles an element and, below it, each child element; nothing is produced
/// where any of them fails.
pub fn assemble(types: &TypeRegistry, fns: &NamedSystemRegistry, el: &ReadElement) -> (r: Result<
    Plan,
    HTMLSceneSpawnError,
>)
    ensures
        match assembled(types.types@, fns.entries(), *el) {
            Ok(p) => r matches Ok(x) && x.model() == p,
            Err(e) => r matches Err(x) && x@ == e,
        },
    decreases el, 1nat,
{
    let facets = match assemble_facets(types, fns, el) {
        Err(e) => {
            return Err(e);
        },
        Ok(f) => f,
    };
    let children = match assemble_children(types, fns, &el.children) {
        Err(e) => {
            return Err(e);
        },
        Ok(c) => c,
    };
    Ok(Plan { facets, id: el.id.clone(), children })
}

fn assemble_children(types: &TypeRegistry, fns: &NamedSystemRegistry, cs: &Vec<ReadElement>) -> (r:
    Result<Vec<Plan>, HTMLSceneSpawnError>)
    ensures
        match assembled_children(types.types@, fns.entries(), cs@) {
            Ok(p) => r matches Ok(x) && plans_model(x@) == p,
            Err(e) => r matches Err(x) && x@ == e,
        },
    decreases cs@, 0nat,
{
    let mut acc: Vec<Plan> = Vec::new();
    let mut k: usize = 0;
    proof {
        assert(cs@.subrange(0, 0) =~= Seq::<ReadElement>::empty());
        assert(plans_model(acc@) =~= Seq::empty());
    }
    while k < cs.len()
        invariant
            k <= cs@.len(),
            assembled_children(types.types@, fns.entries(), cs@.subrange(0, k as int)) == Ok::<
                Seq<PlanView>,
                ErrView,
            >(plans_model(acc@)),
        decreases cs@.len() - k,
    {
        proof {
            assert(cs@.subrange(0, k + 1).drop_last() =~= cs@.subrange(0, k as int));
            assert(cs@.subrange(0, k + 1).last() == cs@[k as int]);
        }
        match assemble(types, fns, &cs[k]) {
            Err(e) => {
                proof {
                    lemma_children_err_sticks(types.types@, fns.entries(), cs@, k + 1);
                }
                return Err(e);
            },
            Ok(p) => {
                let ghost before = acc@;
                acc.push(p);
                proof {
                    assert(acc@.drop_last() =~= before);
                }
            },
        }
        k = k + 1;
    }
    proof {
        assert(cs@.subrange(0, cs@.len() as int) =~= cs@);
    }
    Ok(acc)
}

/// Template inlining: an attribute whose type is a template, once its value
/// is built, contributes to the target exactly what the entries of the
/// template's subtree contribute when written directly on the same target.
pub proof fn lemma_template_inline(
    types: Seq<TypeDescriptor>,
    fns: Seq<FunctionEntry>,
    name: Seq<char>,
    value: Option<ReadValue>,
    depth: nat,
    acc: Gathered,
)
    requires
        name != "Entity"@,
        name != "x"@,
        !(name == "TextStyle"@ && value is Some),
        find_type(types, resolved_name(name)) is Some,
        find_type(types, resolved_name(name))->0.template is Some,
        chosen_lit(find_type(types, resolved_name(name))->0.shape, value) is Ok,
        constructed(
            types,
            fns,
            name,
            resolved_name(name),
            chosen_lit(find_type(types, resolved_name(name))->0.shape, value)->Ok_0,
        ) is Ok,
        depth > 0,
    ensures
        ({
            let t = find_type(types, resolved_name(name))->0.template->0;
            gathered_step(types, fns, name, value, false, depth, acc) == gathered_upto(
                types,
                fns,
                t,
                entry_count(t),
                (depth - 1) as nat,
                acc,
            )
        }),
{
}

} // verus!
