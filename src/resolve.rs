//! Running the constructor functions that construction left pending.
use vstd::prelude::*;
use crate::error::HTMLSceneSpawnError;
use crate::instance::{FieldValue, IView, Instance, fields_model, items_model, lemma_fields_model_len, lemma_items_model_len, lemma_model_shape};
use crate::named_system_registry::{Host, NamedSystemRegistry, FunctionEntry, call_refusal, find_fn};
use crate::scene::{Facet, Plan, facet_map, plans_model};

verus! {

/// Whether `b` agrees with `a` everywhere outside the pending calls of `a`.
pub open spec fn agrees(a: IView, b: IView) -> bool
    decreases a, 1nat,
{
    match a {
        IView::Call(_, _) => true,
        IView::Record(fa) => b is Record && agrees_fields(fa, b->Record_0),
        IView::Items(xa) => b is Items && agrees_items(xa, b->Items_0),
        IView::Variant(n, p) => b is Variant && b->Variant_0 == n && agrees(*p, *b->Variant_1),
        _ => b == a,
    }
}

pub open spec fn agrees_fields(fa: Seq<(Seq<char>, IView)>, fb: Seq<(Seq<char>, IView)>) -> bool
    decreases fa, 0nat,
{
    fa.len() == fb.len() && (fa.len() == 0 || (agrees_fields(fa.drop_last(), fb.drop_last())
        && fa.last().0 == fb.last().0 && agrees(fa.last().1, fb.last().1)))
}

pub open spec fn agrees_items(xa: Seq<IView>, xb: Seq<IView>) -> bool
    decreases xa, 0nat,
{
    xa.len() == xb.len() && (xa.len() == 0 || (agrees_items(xa.drop_last(), xb.drop_last())
        && agrees(xa.last(), xb.last())))
}

/// Whether `a` holds a pending call anywhere.
pub open spec fn has_calls(a: IView) -> bool
    decreases a, 1nat,
{
    match a {
        IView::Call(_, _) => true,
        IView::Record(fa) => fields_have_calls(fa),
        IView::Items(xa) => items_have_calls(xa),
        IView::Variant(_, p) => has_calls(*p),
        _ => false,
    }
}

pub open spec fn fields_have_calls(fa: Seq<(Seq<char>, IView)>) -> bool
    decreases fa, 0nat,
{
    fa.len() > 0 && (fields_have_calls(fa.drop_last()) || has_calls(fa.last().1))
}

pub open spec fn items_have_calls(xa: Seq<IView>) -> bool
    decreases xa, 0nat,
{
    xa.len() > 0 && (items_have_calls(xa.drop_last()) || has_calls(xa.last()))
}

/// The declared input type of `f`, where `f` is registered.
pub open spec fn declared_input(s: Seq<FunctionEntry>, f: Seq<char>) -> Seq<char> {
    match find_fn(s, f) {
        Some(e) => e.input@,
        None => "()"@,
    }
}

/// Replaces every pending call in `i`, innermost first, by what the function
/// returns through the table; the rest of `i` is kept. An instance without
/// pending calls comes back as it is.
pub fn resolve_calls<H: Host>(i: Instance, fns: &mut NamedSystemRegistry, host: &mut H) -> (r: Result<
    Instance,
    HTMLSceneSpawnError,
>)
    ensures
        r matches Ok(v) ==> agrees(i.model(), v.model()),
        !has_calls(i.model()) ==> (r matches Ok(v) && v.model() == i.model()
            && final(fns).entries() == old(fns).entries()),
        i.model() matches IView::Call(f, a) ==> (!has_calls(*a) ==> (call_refusal(
            old(fns).entries(),
            f,
            declared_input(old(fns).entries(), f),
        ) matches Some(e) ==> r matches Err(x) && x@ == e)),
    decreases i, 1nat,
{
    proof {
        lemma_model_shape(i);
    }
    match i {
        Instance::Call(f, a) => {
            let a2 = match resolve_calls(*a, fns, host) {
                Ok(x) => x,
                Err(e) => {
                    return Err(e);
                },
            };
            match fns.get_type_ids(&f) {
                None => Err(HTMLSceneSpawnError::UnknownFunction(f)),
                Some((input, _)) => fns.call_reflect(host, &f, &input, a2),
            }
        },
        Instance::Record(fs) => {
            match resolve_fields(fs, fns, host) {
                Ok(v) => {
                    let r = Instance::Record(v);
                    proof {
                        lemma_model_shape(r);
                    }
                    Ok(r)
                },
                Err(e) => Err(e),
            }
        },
        Instance::Items(xs) => match resolve_items(xs, fns, host) {
            Ok(v) => {
                let r = Instance::Items(v);
                proof {
                    lemma_model_shape(r);
                }
                Ok(r)
            },
            Err(e) => Err(e),
        },
        Instance::Variant(n, p) => {
            match resolve_calls(*p, fns, host) {
                Ok(q) => {
                    let r = Instance::Variant(n, Box::new(q));
                    proof {
                        lemma_model_shape(r);
                    }
                    Ok(r)
                },
                Err(e) => Err(e),
            }
        },
        other => Ok(other),
    }
}

fn resolve_fields<H: Host>(fs: Vec<FieldValue>, fns: &mut NamedSystemRegistry, host: &mut H) -> (r:
    Result<Vec<FieldValue>, HTMLSceneSpawnError>)
    ensures
        r matches Ok(v) ==> agrees_fields(fields_model(fs@), fields_model(v@)),
        !fields_have_calls(fields_model(fs@)) ==> (r matches Ok(v) && fields_model(v@) == fields_model(
            fs@,
        ) && final(fns).entries() == old(fns).entries()),
    decreases fs@, 0nat,
{
    let ghost orig = fs@;
    let n = fs.len();
    let mut rest = fs;
    let mut out: Vec<FieldValue> = Vec::new();
    let mut k: usize = 0;
    proof {
        assert(orig.subrange(0, 0) =~= Seq::<FieldValue>::empty());
        assert(fields_model(orig.subrange(0, 0)) =~= fields_model(out@));
    }
    while rest.len() > 0
        invariant
            k + rest@.len() == orig.len(),
            rest@ == orig.subrange(k as int, orig.len() as int),
            out@.len() == k,
            agrees_fields(fields_model(orig.subrange(0, k as int)), fields_model(out@)),
            !fields_have_calls(fields_model(orig.subrange(0, k as int))) ==> fields_model(out@) == fields_model(orig.subrange(0, k as int)) && fns.entries() == old(fns).entries(),
            orig == fs@,
            n == orig.len(),
        decreases rest@.len(),
    {
        let f = rest.remove(0);
        proof {
            assert(f == orig[k as int]);
            assert(decreases_to!(fs@ => fs@[k as int]));
            assert(orig.subrange(0, k + 1).drop_last() =~= orig.subrange(0, k as int));
            assert(rest@ =~= orig.subrange(k + 1, orig.len() as int));
        }
        let FieldValue { name, value } = f;
        let ghost vm = value.model();
        match resolve_calls(value, fns, host) {
            Ok(v) => {
                let ghost before = out@;
                out.push(FieldValue { name, value: v });
                proof {
                    assert(out@.drop_last() =~= before);
                    lemma_fields_model_last(out@);
                    lemma_fields_model_last(orig.subrange(0, k + 1));
                }
            },
            Err(e) => {
                proof {
                    if !fields_have_calls(fields_model(orig)) {
                        lemma_fields_have_calls_grow(orig, k as int);
                    }
                }
                return Err(e);
            },
        }
        k = k + 1;
    }
    proof {
        assert(orig.subrange(0, k as int) =~= orig);
    }
    Ok(out)
}

fn resolve_items<H: Host>(xs: Vec<Instance>, fns: &mut NamedSystemRegistry, host: &mut H) -> (r:
    Result<Vec<Instance>, HTMLSceneSpawnError>)
    ensures
        r matches Ok(v) ==> agrees_items(items_model(xs@), items_model(v@)),
        !items_have_calls(items_model(xs@)) ==> (r matches Ok(v) && items_model(v@) == items_model(
            xs@,
        ) && final(fns).entries() == old(fns).entries()),
    decreases xs@, 0nat,
{
    let ghost orig = xs@;
    let n = xs.len();
    let mut rest = xs;
    let mut out: Vec<Instance> = Vec::new();
    let mut k: usize = 0;
    proof {
        assert(orig.subrange(0, 0) =~= Seq::<Instance>::empty());
        assert(items_model(orig.subrange(0, 0)) =~= items_model(out@));
    }
    while rest.len() > 0
        invariant
            k + rest@.len() == orig.len(),
            rest@ == orig.subrange(k as int, orig.len() as int),
            out@.len() == k,
            agrees_items(items_model(orig.subrange(0, k as int)), items_model(out@)),
            !items_have_calls(items_model(orig.subrange(0, k as int))) ==> items_model(out@) == items_model(orig.subrange(0, k as int)) && fns.entries() == old(fns).entries(),
            orig == xs@,
            n == orig.len(),
        decreases rest@.len(),
    {
        let x = rest.remove(0);
        proof {
            assert(x == orig[k as int]);
            assert(decreases_to!(xs@ => xs@[k as int]));
            assert(orig.subrange(0, k + 1).drop_last() =~= orig.subrange(0, k as int));
            assert(rest@ =~= orig.subrange(k + 1, orig.len() as int));
        }
        match resolve_calls(x, fns, host) {
            Ok(v) => {
                let ghost before = out@;
                out.push(v);
                proof {
                    assert(out@.drop_last() =~= before);
                    lemma_items_model_last(out@);
                    lemma_items_model_last(orig.subrange(0, k + 1));
                }
            },
            Err(e) => {
                proof {
                    if !items_have_calls(items_model(orig)) {
                        lemma_items_have_calls_grow(orig, k as int);
                    }
                }
                return Err(e);
            },
        }
        k = k + 1;
    }
    proof {
        assert(orig.subrange(0, k as int) =~= orig);
    }
    Ok(out)
}

proof fn lemma_fields_have_calls_grow(s: Seq<FieldValue>, k: int)
    requires
        0 <= k < s.len(),
        !fields_have_calls(fields_model(s)),
    ensures
        !has_calls(s[k].value.model()),
    decreases s.len(),
{
    lemma_fields_model_last(s);
    if k < s.len() - 1 {
        lemma_fields_have_calls_grow(s.drop_last(), k);
    }
}

proof fn lemma_items_have_calls_grow(s: Seq<Instance>, k: int)
    requires
        0 <= k < s.len(),
        !items_have_calls(items_model(s)),
    ensures
        !has_calls(s[k].model()),
    decreases s.len(),
{
    lemma_items_model_last(s);
    if k < s.len() - 1 {
        lemma_items_have_calls_grow(s.drop_last(), k);
    }
}

proof fn lemma_fields_model_last(s: Seq<FieldValue>)
    requires
        s.len() > 0,
    ensures
        fields_model(s).drop_last() == fields_model(s.drop_last()),
        fields_model(s).last() == (s.last().name@, s.last().value.model()),
        fields_model(s).len() == s.len(),
{
    lemma_fields_model_len(s);
    assert(fields_model(s).drop_last() =~= fields_model(s.drop_last()));
}

proof fn lemma_items_model_last(s: Seq<Instance>)
    requires
        s.len() > 0,
    ensures
        items_model(s).drop_last() == items_model(s.drop_last()),
        items_model(s).last() == s.last().model(),
        items_model(s).len() == s.len(),
{
    lemma_items_model_len(s);
    assert(items_model(s).drop_last() =~= items_model(s.drop_last()));
}

/// Whether some facet value in `fs` holds a pending call.
pub open spec fn facets_have_calls(fs: Seq<Facet>) -> bool
    decreases fs.len(),
{
    fs.len() > 0 && (facets_have_calls(fs.drop_last()) || has_calls(fs.last().value.model()))
}

/// Whether some facet of the plan or of a plan below it holds a pending call.
pub open spec fn plan_has_calls(p: Plan) -> bool
    decreases p, 1nat,
{
    facets_have_calls(p.facets@) || plans_have_calls(p.children@)
}

pub open spec fn plans_have_calls(s: Seq<Plan>) -> bool
    decreases s, 0nat,
{
    s.len() > 0 && (plans_have_calls(s.drop_last()) || plan_has_calls(s.last()))
}

proof fn lemma_facets_calls_prefix(fs: Seq<Facet>, k: int)
    requires
        0 <= k < fs.len(),
        !facets_have_calls(fs.subrange(0, k + 1)),
    ensures
        !facets_have_calls(fs.subrange(0, k)),
        !has_calls(fs[k].value.model()),
{
    assert(fs.subrange(0, k + 1).drop_last() =~= fs.subrange(0, k));
}

proof fn lemma_plans_calls_prefix(s: Seq<Plan>, k: int)
    requires
        0 <= k < s.len(),
        !plans_have_calls(s.subrange(0, k + 1)),
    ensures
        !plans_have_calls(s.subrange(0, k)),
        !plan_has_calls(s[k]),
{
    assert(s.subrange(0, k + 1).drop_last() =~= s.subrange(0, k));
}

proof fn lemma_facets_calls_grow(fs: Seq<Facet>, k: int)
    requires
        0 <= k <= fs.len(),
        !facets_have_calls(fs),
    ensures
        !facets_have_calls(fs.subrange(0, k)),
    decreases fs.len() - k,
{
    if k < fs.len() {
        lemma_facets_calls_grow(fs, k + 1);
        lemma_facets_calls_prefix(fs, k);
    } else {
        assert(fs.subrange(0, k) =~= fs);
    }
}

proof fn lemma_plans_calls_grow(s: Seq<Plan>, k: int)
    requires
        0 <= k <= s.len(),
        !plans_have_calls(s),
    ensures
        !plans_have_calls(s.subrange(0, k)),
    decreases s.len() - k,
{
    if k < s.len() {
        lemma_plans_calls_grow(s, k + 1);
        lemma_plans_calls_prefix(s, k);
    } else {
        assert(s.subrange(0, k) =~= s);
    }
}

/// Facet lists that agree position by position give the same facet set.
pub proof fn lemma_facet_map_congruent(a: Seq<Facet>, b: Seq<Facet>)
    requires
        a.len() == b.len(),
        forall|i: int|
            0 <= i < a.len() ==> (#[trigger] a[i]).ty@ == b[i].ty@ && a[i].value.model()
                == b[i].value.model(),
    ensures
        facet_map(a) == facet_map(b),
    decreases a.len(),
{
    if a.len() > 0 {
        lemma_facet_map_congruent(a.drop_last(), b.drop_last());
    }
}

/// Replaces the pending calls in every facet of a plan and of its children;
/// the facet types, identifiers and shape of the tree are kept. A plan without
/// pending calls comes back as it is, and no function runs.
pub fn resolve_plan<H: Host>(plan: Plan, fns: &mut NamedSystemRegistry, host: &mut H) -> (r: Result<
    Plan,
    HTMLSceneSpawnError,
>)
    ensures
        r matches Ok(p) ==> {
            &&& p.facets@.len() == plan.facets@.len()
            &&& forall|i: int|
                0 <= i < p.facets@.len() ==> (#[trigger] p.facets@[i]).ty == plan.facets@[i].ty
                    && agrees(plan.facets@[i].value.model(), p.facets@[i].value.model())
            &&& p.id == plan.id
            &&& p.children@.len() == plan.children@.len()
        },
        !plan_has_calls(plan) ==> (r matches Ok(p) && p.model() == plan.model() && final(fns).entries()
            == old(fns).entries()),
    decreases plan,
{
    let ghost orig = plan;
    let Plan { facets, id, children } = plan;
    let ghost of = facets@;
    let ghost oc0 = children@;
    let mut rest = facets;
    let mut out: Vec<Facet> = Vec::new();
    proof {
        assert(of.subrange(0, 0) =~= Seq::<Facet>::empty());
    }
    while rest.len() > 0
        invariant
            out@.len() + rest@.len() == of.len(),
            rest@ == of.subrange(out@.len() as int, of.len() as int),
            forall|i: int|
                0 <= i < out@.len() ==> (#[trigger] out@[i]).ty == of[i].ty && agrees(
                    of[i].value.model(),
                    out@[i].value.model(),
                ),
            forall|i: int|
                0 <= i < out@.len() && !has_calls(of[i].value.model()) ==> (#[trigger] out@[i]).value.model()
                    == of[i].value.model(),
            !facets_have_calls(of.subrange(0, out@.len() as int)) ==> fns.entries() == old(fns).entries(),
            of == plan.facets@,
            oc0 == plan.children@,
        decreases rest@.len(),
    {
        let ghost k: int = out@.len() as int;
        let f = rest.remove(0);
        proof {
            assert(f == of[k]);
            assert(rest@ =~= of.subrange(k + 1, of.len() as int));
        }
        let Facet { ty, value } = f;
        match resolve_calls(value, fns, host) {
            Ok(v) => {
                out.push(Facet { ty, value: v });
                proof {
                    if !facets_have_calls(of.subrange(0, k + 1)) {
                        lemma_facets_calls_prefix(of, k);
                    }
                }
            },
            Err(e) => {
                proof {
                    if !plan_has_calls(plan) {
                        lemma_facets_calls_grow(of, k + 1);
                        lemma_facets_calls_prefix(of, k);
                    }
                }
                return Err(e);
            },
        }
    }
    let ghost oc = children@;
    let mut kids = children;
    let mut done: Vec<Plan> = Vec::new();
    proof {
        assert(oc.subrange(0, 0) =~= Seq::<Plan>::empty());
        assert(of.subrange(0, of.len() as int) =~= of);
    }
    let ghost fns_mid = fns.entries();
    while kids.len() > 0
        invariant
            done@.len() + kids@.len() == oc.len(),
            kids@ == oc.subrange(done@.len() as int, oc.len() as int),
            oc == plan.children@,
            forall|i: int|
                0 <= i < done@.len() && !plan_has_calls(oc[i]) ==> (#[trigger] done@[i]).model()
                    == oc[i].model(),
            !plans_have_calls(oc.subrange(0, done@.len() as int)) ==> fns.entries() == fns_mid,
            !plan_has_calls(plan) ==> fns_mid == old(fns).entries(),
            !plan_has_calls(plan) ==> !facets_have_calls(plan.facets@),
        decreases kids@.len(),
    {
        let ghost k: int = done@.len() as int;
        let c = kids.remove(0);
        proof {
            assert(c == oc[k]);
            assert(kids@ =~= oc.subrange(k + 1, oc.len() as int));
            assert(decreases_to!(plan.children => plan.children@[k]));
        }
        match resolve_plan(c, fns, host) {
            Ok(p) => {
                done.push(p);
                proof {
                    if !plans_have_calls(oc.subrange(0, k + 1)) {
                        lemma_plans_calls_prefix(oc, k);
                    }
                }
            },
            Err(e) => {
                proof {
                    if !plan_has_calls(plan) {
                        lemma_plans_calls_grow(oc, k + 1);
                        lemma_plans_calls_prefix(oc, k);
                    }
                }
                return Err(e);
            },
        }
    }
    let r = Plan { facets: out, id, children: done };
    proof {
        assert(oc.subrange(0, oc.len() as int) =~= oc);
        if !plan_has_calls(orig) {
            lemma_facets_calls_grow(of, of.len() as int);
            lemma_plans_calls_grow(oc, oc.len() as int);
            assert forall|i: int| 0 <= i < of.len() implies !has_calls(of[i].value.model()) by {
                lemma_facets_calls_grow(of, i + 1);
                lemma_facets_calls_prefix(of, i);
            }
            assert forall|i: int| 0 <= i < oc.len() implies !plan_has_calls(oc[i]) by {
                lemma_plans_calls_grow(oc, i + 1);
                lemma_plans_calls_prefix(oc, i);
            }
            lemma_facet_map_congruent(r.facets@, of);
            crate::graph::lemma_plans_model(r.children@);
            crate::graph::lemma_plans_model(oc);
            assert(plans_model(r.children@) =~= plans_model(oc));
        }
    }
    Ok(r)
}

} // verus!
