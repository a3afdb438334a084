//! Laying a partial instance over a default: field-level patching.
use vstd::prelude::*;
use crate::instance::{FieldValue, IView, Instance, fields_model, items_model, lemma_fields_model_len, lemma_items_model_len};

verus! {

/// Position of the first entry keyed `name`, from `k` on.
pub open spec fn key_index_from(s: Seq<(Seq<char>, IView)>, name: Seq<char>, k: int) -> Option<int>
    decreases s.len() - k,
{
    if k < 0 || k >= s.len() {
        None
    } else if s[k].0 == name {
        Some(k)
    } else {
        key_index_from(s, name, k + 1)
    }
}

pub proof fn lemma_key_index_from(s: Seq<(Seq<char>, IView)>, name: Seq<char>, k: int)
    requires
        0 <= k,
    ensures
        key_index_from(s, name, k) matches Some(i) ==> k <= i < s.len() && s[i].0 == name,
        key_index_from(s, name, k) is None ==> forall|j: int|
            k <= j < s.len() && 0 <= j ==> s[j].0 != name,
    decreases s.len() - k,
{
    if 0 <= k < s.len() {
        lemma_key_index_from(s, name, k + 1);
    }
}

/// `p` laid over `d`: the fields and items that `p` holds replace, recursively,
/// those of `d`; all else of `d` stays. `None` where a struct-shaped or
/// sequence-shaped patch meets a default of another shape.
pub open spec fn patched(d: IView, p: IView) -> Option<IView>
    decreases p,
{
    match p {
        IView::Record(pfs) => match d {
            IView::Record(dfs) => match patch_fields(dfs, pfs) {
                Some(fs) => Some(IView::Record(fs)),
                None => None,
            },
            _ => None,
        },
        IView::Items(ps) => match d {
            IView::Items(ds) => match patch_items(ds, ps) {
                Some(xs) => Some(IView::Items(xs)),
                None => None,
            },
            _ => None,
        },
        IView::Variant(n, pp) => match d {
            IView::Variant(m, dp) => if n == m {
                match patched(*dp, *pp) {
                    Some(x) => Some(IView::Variant(n, Box::new(x))),
                    None => None,
                }
            } else {
                Some(p)
            },
            _ => None,
        },
        _ => Some(p),
    }
}

/// The fields of `pfs`, in order, laid over `dfs`. A key that `dfs` lacks is passed over.
pub open spec fn patch_fields(dfs: Seq<(Seq<char>, IView)>, pfs: Seq<(Seq<char>, IView)>) -> Option<
    Seq<(Seq<char>, IView)>,
>
    decreases pfs,
{
    if pfs.len() == 0 {
        Some(dfs)
    } else {
        match patch_fields(dfs, pfs.drop_last()) {
            None => None,
            Some(acc) => match key_index_from(acc, pfs.last().0, 0) {
                None => Some(acc),
                Some(j) => match patched(acc[j].1, pfs.last().1) {
                    Some(v) => Some(acc.update(j, (acc[j].0, v))),
                    None => None,
                },
            },
        }
    }
}

/// The items of `ps` laid over those of `ds` at the same positions. Items past
/// the end of `ds` are passed over.
pub open spec fn patch_items(ds: Seq<IView>, ps: Seq<IView>) -> Option<Seq<IView>>
    decreases ps,
{
    if ps.len() == 0 {
        Some(ds)
    } else {
        match patch_items(ds, ps.drop_last()) {
            None => None,
            Some(acc) => if ps.len() - 1 < acc.len() {
                match patched(acc[ps.len() - 1], ps.last()) {
                    Some(v) => Some(acc.update(ps.len() - 1, v)),
                    None => None,
                }
            } else {
                Some(acc)
            },
        }
    }
}

pub proof fn lemma_patch_items_len(ds: Seq<IView>, ps: Seq<IView>)
    ensures
        patch_items(ds, ps) matches Some(r) ==> r.len() == ds.len(),
    decreases ps.len(),
{
    if ps.len() > 0 {
        lemma_patch_items_len(ds, ps.drop_last());
    }
}

pub proof fn lemma_patch_fields_len(dfs: Seq<(Seq<char>, IView)>, pfs: Seq<(Seq<char>, IView)>)
    ensures
        patch_fields(dfs, pfs) matches Some(r) ==> r.len() == dfs.len(),
    decreases pfs.len(),
{
    if pfs.len() > 0 {
        lemma_patch_fields_len(dfs, pfs.drop_last());
        if let Some(acc) = patch_fields(dfs, pfs.drop_last()) {
            lemma_key_index_from(acc, pfs.last().0, 0);
        }
    }
}

/// A deep copy.
pub fn copy_instance(i: &Instance) -> (r: Instance)
    ensures
        r.model() == i.model(),
    decreases i, 1nat,
{
    match i {
        Instance::Unit => Instance::Unit,
        Instance::Int(n) => Instance::Int(*n),
        Instance::Bool(b) => Instance::Bool(*b),
        Instance::Text(s) => Instance::Text(s.clone()),
        Instance::Record(fs) => Instance::Record(copy_fields(fs)),
        Instance::Items(xs) => Instance::Items(copy_items(xs)),
        Instance::Variant(n, p) => {
            let c = copy_instance(p);
            Instance::Variant(n.clone(), Box::new(c))
        },
        Instance::Call(n, a) => {
            let c = copy_instance(a);
            Instance::Call(n.clone(), Box::new(c))
        },
    }
}

fn copy_fields(fs: &Vec<FieldValue>) -> (r: Vec<FieldValue>)
    ensures
        fields_model(r@) == fields_model(fs@),
    decreases fs@, 0nat,
{
    let mut out: Vec<FieldValue> = Vec::new();
    let mut k: usize = 0;
    while k < fs.len()
        invariant
            k <= fs@.len(),
            out@.len() == k,
            forall|j: int|
                0 <= j < k ==> (#[trigger] out@[j]).name@ == fs@[j].name@ && out@[j].value.model()
                    == fs@[j].value.model(),
        decreases fs@.len() - k,
    {
        let v = copy_instance(&fs[k].value);
        out.push(FieldValue { name: fs[k].name.clone(), value: v });
        k = k + 1;
    }
    proof {
        lemma_fields_model_len(out@);
        lemma_fields_model_len(fs@);
        assert(fields_model(out@) =~= fields_model(fs@));
    }
    out
}

fn copy_items(xs: &Vec<Instance>) -> (r: Vec<Instance>)
    ensures
        items_model(r@) == items_model(xs@),
    decreases xs@, 0nat,
{
    let mut out: Vec<Instance> = Vec::new();
    let mut k: usize = 0;
    while k < xs.len()
        invariant
            k <= xs@.len(),
            out@.len() == k,
            forall|j: int| 0 <= j < k ==> (#[trigger] out@[j]).model() == xs@[j].model(),
        decreases xs@.len() - k,
    {
        let v = copy_instance(&xs[k]);
        out.push(v);
        k = k + 1;
    }
    proof {
        lemma_items_model_len(out@);
        lemma_items_model_len(xs@);
        assert(items_model(out@) =~= items_model(xs@));
    }
    out
}

proof fn lemma_patch_fields_none_sticks(
    dfs: Seq<(Seq<char>, IView)>,
    pfs: Seq<(Seq<char>, IView)>,
    k: int,
)
    requires
        0 <= k <= pfs.len(),
        patch_fields(dfs, pfs.subrange(0, k)) is None,
    ensures
        patch_fields(dfs, pfs) is None,
    decreases pfs.len() - k,
{
    if k < pfs.len() {
        assert(pfs.subrange(0, k + 1).drop_last() =~= pfs.subrange(0, k));
        lemma_patch_fields_none_sticks(dfs, pfs, k + 1);
    } else {
        assert(pfs.subrange(0, k) =~= pfs);
    }
}

proof fn lemma_patch_items_none_sticks(ds: Seq<IView>, ps: Seq<IView>, k: int)
    requires
        0 <= k <= ps.len(),
        patch_items(ds, ps.subrange(0, k)) is None,
    ensures
        patch_items(ds, ps) is None,
    decreases ps.len() - k,
{
    if k < ps.len() {
        assert(ps.subrange(0, k + 1).drop_last() =~= ps.subrange(0, k));
        lemma_patch_items_none_sticks(ds, ps, k + 1);
    } else {
        assert(ps.subrange(0, k) =~= ps);
    }
}

fn key_index(acc: &Vec<FieldValue>, name: &String) -> (r: Option<usize>)
    ensures
        match r {
            Some(j) => key_index_from(fields_model(acc@), name@, 0) == Some(j as int),
            None => key_index_from(fields_model(acc@), name@, 0) is None,
        },
{
    proof {
        lemma_fields_model_len(acc@);
    }
    let mut k: usize = 0;
    while k < acc.len()
        invariant
            k <= acc@.len(),
            fields_model(acc@).len() == acc@.len(),
            forall|i: int|
                0 <= i < acc@.len() ==> #[trigger] fields_model(acc@)[i] == (
                    acc@[i].name@,
                    acc@[i].value.model(),
                ),
            key_index_from(fields_model(acc@), name@, 0) == key_index_from(
                fields_model(acc@),
                name@,
                k as int,
            ),
        decreases acc@.len() - k,
    {
        if acc[k].name == *name {
            return Some(k);
        }
        k = k + 1;
    }
    None
}

/// Lays `p` over `d`, as [`patched`] states.
pub fn patch(d: &Instance, p: &Instance) -> (r: Option<Instance>)
    ensures
        match r {
            Some(x) => patched(d.model(), p.model()) == Some(x.model()),
            None => patched(d.model(), p.model()) is None,
        },
    decreases p, 1nat,
{
    match p {
        Instance::Record(pfs) => match d {
            Instance::Record(dfs) => match patch_field_list(dfs, pfs) {
                Some(fs) => Some(Instance::Record(fs)),
                None => None,
            },
            _ => None,
        },
        Instance::Items(ps) => match d {
            Instance::Items(ds) => match patch_item_list(ds, ps) {
                Some(xs) => Some(Instance::Items(xs)),
                None => None,
            },
            _ => None,
        },
        Instance::Variant(n, pp) => match d {
            Instance::Variant(m, dp) => if *n == *m {
                match patch(dp, pp) {
                    Some(x) => Some(Instance::Variant(n.clone(), Box::new(x))),
                    None => None,
                }
            } else {
                Some(copy_instance(p))
            },
            _ => None,
        },
        _ => Some(copy_instance(p)),
    }
}

fn patch_field_list(dfs: &Vec<FieldValue>, pfs: &Vec<FieldValue>) -> (r: Option<Vec<FieldValue>>)
    ensures
        match r {
            Some(x) => patch_fields(fields_model(dfs@), fields_model(pfs@)) == Some(
                fields_model(x@),
            ),
            None => patch_fields(fields_model(dfs@), fields_model(pfs@)) is None,
        },
    decreases pfs@, 0nat,
{
    let ghost dm = fields_model(dfs@);
    let ghost pm = fields_model(pfs@);
    proof {
        lemma_fields_model_len(pfs@);
        assert(pm.subrange(0, 0) =~= Seq::<(Seq<char>, IView)>::empty());
    }
    let mut acc = copy_fields(dfs);
    let mut k: usize = 0;
    while k < pfs.len()
        invariant
            k <= pfs@.len(),
            pm == fields_model(pfs@),
            dm == fields_model(dfs@),
            pm.len() == pfs@.len(),
            forall|i: int|
                0 <= i < pfs@.len() ==> #[trigger] pm[i] == (pfs@[i].name@, pfs@[i].value.model()),
            patch_fields(dm, pm.subrange(0, k as int)) == Some(fields_model(acc@)),
        decreases pfs@.len() - k,
    {
        proof {
            assert(pm.subrange(0, k + 1).drop_last() =~= pm.subrange(0, k as int));
            assert(pm.subrange(0, k + 1).last() == pm[k as int]);
            lemma_fields_model_len(acc@);
            lemma_key_index_from(fields_model(acc@), pfs@[k as int].name@, 0);
        }
        match key_index(&acc, &pfs[k].name) {
            None => {},
            Some(j) => {
                match patch(&acc[j].value, &pfs[k].value) {
                    None => {
                        proof {
                            assert(patch_fields(dm, pm.subrange(0, k + 1)) is None);
                            lemma_patch_fields_none_sticks(dm, pm, k + 1);
                            assert(patch_fields(dm, pm) is None);
                        }
                        return None;
                    },
                    Some(v) => {
                        let ghost before = acc@;
                        let old_entry = acc.remove(j);
                        let entry = FieldValue { name: old_entry.name, value: v };
                        let ghost e = entry;
                        acc.insert(j, entry);
                        proof {
                            assert(acc@ =~= before.update(j as int, e));
                            lemma_fields_model_len(acc@);
                            lemma_fields_model_len(before);
                            assert(fields_model(acc@) =~= fields_model(before).update(
                                j as int,
                                (fields_model(before)[j as int].0, e.value.model()),
                            ));
                        }
                    },
                }
            },
        }
        k = k + 1;
    }
    proof {
        assert(pm.subrange(0, pfs@.len() as int) =~= pm);
    }
    Some(acc)
}

fn patch_item_list(ds: &Vec<Instance>, ps: &Vec<Instance>) -> (r: Option<Vec<Instance>>)
    ensures
        match r {
            Some(x) => patch_items(items_model(ds@), items_model(ps@)) == Some(items_model(x@)),
            None => patch_items(items_model(ds@), items_model(ps@)) is None,
        },
    decreases ps@, 0nat,
{
    let ghost dm = items_model(ds@);
    let ghost pm = items_model(ps@);
    proof {
        lemma_items_model_len(ps@);
        assert(pm.subrange(0, 0) =~= Seq::<IView>::empty());
    }
    let mut acc = copy_items(ds);
    let mut k: usize = 0;
    while k < ps.len()
        invariant
            k <= ps@.len(),
            pm == items_model(ps@),
            dm == items_model(ds@),
            pm.len() == ps@.len(),
            forall|i: int| 0 <= i < ps@.len() ==> #[trigger] pm[i] == ps@[i].model(),
            patch_items(dm, pm.subrange(0, k as int)) == Some(items_model(acc@)),
        decreases ps@.len() - k,
    {
        proof {
            assert(pm.subrange(0, k + 1).drop_last() =~= pm.subrange(0, k as int));
            assert(pm.subrange(0, k + 1).last() == pm[k as int]);
            lemma_items_model_len(acc@);
        }
        if k < acc.len() {
            match patch(&acc[k], &ps[k]) {
                None => {
                    proof {
                        assert(patch_items(dm, pm.subrange(0, k + 1)) is None);
                        lemma_patch_items_none_sticks(dm, pm, k + 1);
                        assert(patch_items(dm, pm) is None);
                    }
                    return None;
                },
                Some(v) => {
                    let ghost before = acc@;
                    let ghost e = v;
                    acc.remove(k);
                    acc.insert(k, v);
                    proof {
                        assert(acc@ =~= before.update(k as int, e));
                        lemma_items_model_len(acc@);
                        lemma_items_model_len(before);
                        assert(items_model(acc@) =~= items_model(before).update(
                            k as int,
                            e.model(),
                        ));
                    }
                },
            }
        }
        k = k + 1;
    }
    proof {
        assert(pm.subrange(0, ps@.len() as int) =~= pm);
    }
    Some(acc)
}

/// No two entries share a key.
pub open spec fn keys_unique(s: Seq<(Seq<char>, IView)>) -> bool {
    forall|a: int, b: int| 0 <= a < b < s.len() ==> s[a].0 != s[b].0
}

/// A value that a patch replaces whole: neither a struct, a sequence nor a variant.
pub open spec fn is_leaf(v: IView) -> bool {
    !(v is Record || v is Items || v is Variant)
}

/// Laying distinct leaf-valued fields over a default with distinct fields gives,
/// at each field of the default, the value written for it where one is written,
/// and the default's value elsewhere; no field is added or lost.
pub proof fn lemma_partial_patch(dfs: Seq<(Seq<char>, IView)>, pfs: Seq<(Seq<char>, IView)>)
    requires
        keys_unique(dfs),
        keys_unique(pfs),
        forall|j: int| 0 <= j < pfs.len() ==> is_leaf(#[trigger] pfs[j].1),
    ensures
        patch_fields(dfs, pfs) matches Some(r) && r.len() == dfs.len() && (forall|i: int|
            0 <= i < dfs.len() ==> (#[trigger] r[i]).0 == dfs[i].0) && (forall|i: int, j: int|
            0 <= i < dfs.len() && 0 <= j < pfs.len() && pfs[j].0 == dfs[i].0 ==> (#[trigger] r[i]).1
                == (#[trigger] pfs[j]).1) && (forall|i: int|
            0 <= i < dfs.len() && (forall|j: int| 0 <= j < pfs.len() ==> (#[trigger] pfs[j]).0 != dfs[i].0)
                ==> (#[trigger] r[i]).1 == dfs[i].1),
    decreases pfs.len(),
{
    if pfs.len() > 0 {
        let q = pfs.drop_last();
        assert(keys_unique(q));
        lemma_partial_patch(dfs, q);
        let acc = patch_fields(dfs, q)->0;
        let (k, v) = pfs.last();
        lemma_key_index_from(acc, k, 0);
        match key_index_from(acc, k, 0) {
            None => {
                assert forall|i: int, j: int|
                    0 <= i < dfs.len() && 0 <= j < pfs.len() && pfs[j].0 == dfs[i].0 implies acc[i].1
                    == pfs[j].1 by {
                    if j == pfs.len() - 1 {
                        assert(acc[i].0 == k);
                    } else {
                        assert(q[j] == pfs[j]);
                    }
                }
                assert forall|i: int|
                    0 <= i < dfs.len() && (forall|j: int| 0 <= j < pfs.len() ==> (#[trigger] pfs[j]).0 != dfs[i].0)
                    implies acc[i].1 == dfs[i].1 by {
                    assert forall|j: int| 0 <= j < q.len() implies (#[trigger] q[j]).0 != dfs[i].0 by {
                        assert(q[j] == pfs[j]);
                    }
                }
            },
            Some(jx) => {
                let r = acc.update(jx, (acc[jx].0, v));
                assert(patched(acc[jx].1, v) == Some(v));
                assert(patch_fields(dfs, pfs) == Some(r));
                assert forall|i: int, j: int|
                    0 <= i < dfs.len() && 0 <= j < pfs.len() && pfs[j].0 == dfs[i].0 implies r[i].1
                    == pfs[j].1 by {
                    if j == pfs.len() - 1 {
                        assert(i == jx);
                    } else {
                        assert(q[j] == pfs[j]);
                        if i == jx {
                            assert(pfs[j].0 == k);
                        }
                    }
                }
                assert forall|i: int|
                    0 <= i < dfs.len() && (forall|j: int| 0 <= j < pfs.len() ==> (#[trigger] pfs[j]).0 != dfs[i].0)
                    implies r[i].1 == dfs[i].1 by {
                    assert(pfs[pfs.len() - 1].0 != dfs[i].0);
                    assert forall|j: int| 0 <= j < q.len() implies (#[trigger] q[j]).0 != dfs[i].0 by {
                        assert(q[j] == pfs[j]);
                    }
                }
            },
        }
    } else {
    }
}

/// Laying distinct fields of any values over a default with distinct fields:
/// where the patch succeeds, each field of the default that is written holds the
/// written value laid over the default's value for it, each field that is not
/// written keeps the default's value, and no field is added or lost.
pub proof fn lemma_patch_fields_nested(dfs: Seq<(Seq<char>, IView)>, pfs: Seq<(Seq<char>, IView)>)
    requires
        keys_unique(dfs),
        keys_unique(pfs),
    ensures
        patch_fields(dfs, pfs) matches Some(r) ==> r.len() == dfs.len() && (forall|i: int|
            0 <= i < dfs.len() ==> (#[trigger] r[i]).0 == dfs[i].0) && (forall|i: int, j: int|
            0 <= i < dfs.len() && 0 <= j < pfs.len() && pfs[j].0 == dfs[i].0 ==> patched(
                dfs[i].1,
                (#[trigger] pfs[j]).1,
            ) == Some((#[trigger] r[i]).1)) && (forall|i: int|
            0 <= i < dfs.len() && (forall|j: int| 0 <= j < pfs.len() ==> (#[trigger] pfs[j]).0 != dfs[i].0)
                ==> (#[trigger] r[i]).1 == dfs[i].1),
    decreases pfs.len(),
{
    if pfs.len() > 0 {
        let q = pfs.drop_last();
        assert(keys_unique(q));
        lemma_patch_fields_nested(dfs, q);
        if let Some(acc) = patch_fields(dfs, q) {
            let (k, v) = pfs.last();
            lemma_key_index_from(acc, k, 0);
            match key_index_from(acc, k, 0) {
                None => {
                    assert forall|i: int, j: int|
                        0 <= i < dfs.len() && 0 <= j < pfs.len() && pfs[j].0 == dfs[i].0 implies patched(
                        dfs[i].1,
                        pfs[j].1,
                    ) == Some(acc[i].1) by {
                        if j == pfs.len() - 1 {
                            assert(acc[i].0 == k);
                        } else {
                            assert(q[j] == pfs[j]);
                        }
                    }
                    assert forall|i: int|
                        0 <= i < dfs.len() && (forall|j: int| 0 <= j < pfs.len() ==> (#[trigger] pfs[j]).0 != dfs[i].0)
                        implies acc[i].1 == dfs[i].1 by {
                        assert forall|j: int| 0 <= j < q.len() implies (#[trigger] q[j]).0 != dfs[i].0 by {
                            assert(q[j] == pfs[j]);
                        }
                    }
                },
                Some(jx) => {
                    if let Some(nv) = patched(acc[jx].1, v) {
                        let r = acc.update(jx, (acc[jx].0, nv));
                        assert(patch_fields(dfs, pfs) == Some(r));
                        assert forall|j: int| 0 <= j < q.len() implies (#[trigger] q[j]).0 != dfs[jx].0 by {
                            assert(q[j] == pfs[j]);
                            assert(pfs[j].0 != pfs[pfs.len() - 1].0);
                        }
                        assert(acc[jx].1 == dfs[jx].1);
                        assert forall|i: int, j: int|
                            0 <= i < dfs.len() && 0 <= j < pfs.len() && pfs[j].0 == dfs[i].0 implies patched(
                            dfs[i].1,
                            pfs[j].1,
                        ) == Some(r[i].1) by {
                            if j == pfs.len() - 1 {
                                assert(i == jx);
                            } else {
                                assert(q[j] == pfs[j]);
                                if i == jx {
                                    assert(pfs[j].0 == k);
                                }
                            }
                        }
                        assert forall|i: int|
                            0 <= i < dfs.len() && (forall|j: int| 0 <= j < pfs.len() ==> (#[trigger] pfs[j]).0 != dfs[i].0)
                            implies r[i].1 == dfs[i].1 by {
                            assert(pfs[pfs.len() - 1].0 != dfs[i].0);
                            assert forall|j: int| 0 <= j < q.len() implies (#[trigger] q[j]).0 != dfs[i].0 by {
                                assert(q[j] == pfs[j]);
                            }
                        }
                    }
                },
            }
        }
    }
}

/// Writing every field of a default, in its order and with leaf values, yields
/// exactly the values written.
pub proof fn lemma_full_patch(dfs: Seq<(Seq<char>, IView)>, pfs: Seq<(Seq<char>, IView)>)
    requires
        keys_unique(dfs),
        pfs.len() == dfs.len(),
        forall|i: int| 0 <= i < pfs.len() ==> (#[trigger] pfs[i]).0 == dfs[i].0,
        forall|j: int| 0 <= j < pfs.len() ==> is_leaf(#[trigger] pfs[j].1),
    ensures
        patch_fields(dfs, pfs) == Some(pfs),
{
    assert(keys_unique(pfs)) by {
        assert forall|a: int, b: int| 0 <= a < b < pfs.len() implies pfs[a].0 != pfs[b].0 by {
            assert(pfs[a].0 == dfs[a].0);
            assert(pfs[b].0 == dfs[b].0);
        }
    }
    lemma_partial_patch(dfs, pfs);
    let r = patch_fields(dfs, pfs)->0;
    assert forall|i: int| 0 <= i < pfs.len() implies r[i] == pfs[i] by {
        assert(pfs[i].0 == dfs[i].0);
    }
    assert(r =~= pfs);
}

} // verus!
