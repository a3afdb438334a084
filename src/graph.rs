//! The live object graph: nodes with facet sets and ordered children, and the
//! name index.
use vstd::prelude::*;
use crate::instance::IView;
use crate::scene::{Facet, Plan, PlanView, facet_map, plans_model};

verus! {

/// One node: its facets, its ordered children, and its parent.
#[derive(Debug, PartialEq, Eq)]
pub struct GraphNode {
    pub facets: Vec<Facet>,
    pub children: Vec<usize>,
    pub parent: Option<usize>,
}

/// An identifier registered for a node.
#[derive(Debug, Clone, PartialEq, Eq)]
pub struct NameEntry {
    pub name: String,
    pub node: usize,
}

/// The nodes, addressed by index, and the name index. A later registration of a
/// name shadows earlier ones.
#[derive(Debug, PartialEq, Eq)]
pub struct Graph {
    pub nodes: Vec<GraphNode>,
    pub names: Vec<NameEntry>,
}

impl Graph {
    /// The facet set of node `id`.
    pub open spec fn facets_of(&self, id: int) -> Map<Seq<char>, IView> {
        facet_map(self.nodes@[id].facets@)
    }

/// Node `t` replaced, all else unchanged.
    pub open spec fn only_node_changed(&self, old: Graph, t: int) -> bool {
        &&& self.nodes@.len() == old.nodes@.len()
        &&& forall|i: int| 0 <= i < old.nodes@.len() && i != t ==> self.nodes@[i] == old.nodes@[i]
        &&& self.names == old.names
    }

    pub(crate) fn replace_node(&mut self, t: usize, n: GraphNode)
        requires
            t < old(self).nodes@.len(),
        ensures
            final(self).only_node_changed(*old(self), t as int),
            final(self).nodes@[t as int] == n,
    {
        self.nodes.remove(t);
        self.nodes.insert(t, n);
    }

    /// Attaches facet `f` to node `t`.
    pub fn attach(&mut self, t: usize, f: Facet)
        requires
            t < old(self).nodes@.len(),
        ensures
            final(self).only_node_changed(*old(self), t as int),
            final(self).nodes@[t as int].facets@ == old(self).nodes@[t as int].facets@.push(f),
            final(self).nodes@[t as int].children == old(self).nodes@[t as int].children,
            final(self).nodes@[t as int].parent == old(self).nodes@[t as int].parent,
    {
        let mut n = self.nodes.remove(t);
        n.facets.push(f);
        self.nodes.insert(t, n);
    }

    /// Sets the ordered children of node `t`.
    pub(crate) fn set_children(&mut self, t: usize, children: Vec<usize>)
        requires
            t < old(self).nodes@.len(),
        ensures
            final(self).only_node_changed(*old(self), t as int),
            final(self).nodes@[t as int].facets == old(self).nodes@[t as int].facets,
            final(self).nodes@[t as int].children == children,
            final(self).nodes@[t as int].parent == old(self).nodes@[t as int].parent,
    {
        let mut n = self.nodes.remove(t);
        n.children = children;
        self.nodes.insert(t, n);
    }

    /// Puts `c` first (`front`) or last among the children of node `t`.
    pub(crate) fn add_child(&mut self, t: usize, c: usize, front: bool)
        requires
            t < old(self).nodes@.len(),
        ensures
            final(self).only_node_changed(*old(self), t as int),
            final(self).nodes@[t as int].facets == old(self).nodes@[t as int].facets,
            final(self).nodes@[t as int].parent == old(self).nodes@[t as int].parent,
            final(self).nodes@[t as int].children@ == if front {
                seq![c] + old(self).nodes@[t as int].children@
            } else {
                old(self).nodes@[t as int].children@.push(c)
            },
    {
        let mut n = self.nodes.remove(t);
        if front {
            n.children.insert(0, c);
            assert(n.children@ =~= seq![c] + old(self).nodes@[t as int].children@);
        } else {
            n.children.push(c);
        }
        self.nodes.insert(t, n);
    }

    /// Detaches the children of node `t`: `t` keeps no children, and each node
    /// that was a child of `t` no longer has a parent. Those nodes stay in the
    /// table with their facets and children.
    pub fn detach_children(&mut self, t: usize)
        requires
            t < old(self).nodes@.len(),
        ensures
            final(self).nodes@.len() == old(self).nodes@.len(),
            final(self).names == old(self).names,
            final(self).nodes@[t as int].children@.len() == 0,
            final(self).nodes@[t as int].facets == old(self).nodes@[t as int].facets,
            final(self).nodes@[t as int].parent == old(self).nodes@[t as int].parent,
            forall|i: int|
                0 <= i < old(self).nodes@.len() && i != t ==> #[trigger] final(self).nodes@[i]
                    == detached(*old(self), t as int, i),
    {
        let mut n = self.nodes.remove(t);
        let kids = n.children;
        n.children = Vec::new();
        self.nodes.insert(t, n);
        let ghost start = *self;
        proof {
            assert(kids@ == old(self).nodes@[t as int].children@);
            assert forall|i: int| 0 <= i < old(self).nodes@.len() && i != t implies self.nodes@[i]
                == old(self).nodes@[i] by {}
        }
        let mut k: usize = 0;
        while k < kids.len()
            invariant
                k <= kids@.len(),
                kids@ == old(self).nodes@[t as int].children@,
                t < old(self).nodes@.len(),
                self.nodes@.len() == old(self).nodes@.len(),
                self.names == old(self).names,
                self.nodes@[t as int].children@.len() == 0,
                self.nodes@[t as int].facets == old(self).nodes@[t as int].facets,
                self.nodes@[t as int].parent == old(self).nodes@[t as int].parent,
                forall|i: int|
                    0 <= i < old(self).nodes@.len() && i != t ==> #[trigger] self.nodes@[i] == if kids@.subrange(
                        0,
                        k as int,
                    ).contains(i as usize) {
                        GraphNode { parent: None, ..old(self).nodes@[i] }
                    } else {
                        old(self).nodes@[i]
                    },
            decreases kids@.len() - k,
        {
            let c = kids[k];
            let ghost before = *self;
            if c < self.nodes.len() && c != t {
                let mut m = self.nodes.remove(c);
                m.parent = None;
                self.nodes.insert(c, m);
            }
            proof {
                assert forall|i: int| 0 <= i < old(self).nodes@.len() && i != t implies #[trigger] self.nodes@[i]
                    == if kids@.subrange(0, k + 1).contains(i as usize) {
                    GraphNode { parent: None, ..old(self).nodes@[i] }
                } else {
                    old(self).nodes@[i]
                } by {
                    assert(kids@.subrange(0, k + 1) =~= kids@.subrange(0, k as int).push(c));
                    lemma_push_contains(kids@.subrange(0, k as int), c, i as usize);
                    assert((i as usize) as int == i);
                    if i != c as int {
                        assert(self.nodes@[i] == before.nodes@[i]);
                    }
                }
            }
            k = k + 1;
        }
        proof {
            assert(kids@.subrange(0, kids@.len() as int) =~= kids@);
        }
    }

    /// Registers `name` for node `t`.
    pub fn register_name(&mut self, name: String, t: usize)
        ensures
            final(self).nodes == old(self).nodes,
            final(self).names@ == old(self).names@.push(NameEntry { name, node: t }),
    {
        self.names.push(NameEntry { name, node: t });
    }

    /// Materializes `plan` at node `t`: its facets are attached to `t`, its
    /// identifier is registered for `t`, and each child plan is materialized at
    /// a new node appended to `t`'s children.
    pub fn commit(&mut self, t: usize, plan: Plan)
        requires
            t < old(self).nodes@.len(),
            old(self).nodes@.len() + tree_size(plan.model()) <= usize::MAX + 1,
        ensures
            final(self).nodes@.len() == old(self).nodes@.len() + tree_size(plan.model()) - 1,
            forall|i: int|
                0 <= i < old(self).nodes@.len() && i != t ==> final(self).nodes@[i] == old(
                    self,
                ).nodes@[i],
            final(self).nodes@[t as int].facets@ == old(self).nodes@[t as int].facets@
                + plan.facets@,
            final(self).nodes@[t as int].parent == old(self).nodes@[t as int].parent,
            final(self).nodes@[t as int].children@.len() == old(
                self,
            ).nodes@[t as int].children@.len() + plan.children@.len(),
            final(self).nodes@[t as int].children@.subrange(
                0,
                old(self).nodes@[t as int].children@.len() as int,
            ) == old(self).nodes@[t as int].children@,
            forall|j: int|
                old(self).nodes@[t as int].children@.len() <= j < final(self).nodes@[t as int].children@.len()
                    ==> old(self).nodes@.len() <= #[trigger] final(self).nodes@[t as int].children@[j]
                    < final(self).nodes@.len(),
            old(self).names@.len() <= final(self).names@.len(),
            final(self).names@.subrange(0, old(self).names@.len() as int) == old(self).names@,
            plan.id matches Some(nm) ==> old(self).names@.len() < final(self).names@.len()
                && final(self).names@[old(self).names@.len() as int] == (NameEntry { name: nm, node: t }),
            forall|j: int|
                old(self).nodes@[t as int].children@.len() <= j < final(self).nodes@[t as int].children@.len()
                    ==> final(self).nodes@[(#[trigger] final(self).nodes@[t as int].children@[j]) as int].parent
                    == Some(t) && facet_map(
                    final(self).nodes@[final(self).nodes@[t as int].children@[j] as int].facets@,
                ) == plan.model().children[j - old(self).nodes@[t as int].children@.len()].facets,
            forall|a: int, b: int|
                old(self).nodes@[t as int].children@.len() <= a < b < final(self).nodes@[t as int].children@.len()
                    ==> final(self).nodes@[t as int].children@[a] < final(self).nodes@[t as int].children@[b],
        decreases plan,
    {
        let ghost old_self = *self;
        let ghost pm = plan.model();
        let Plan { facets, id, children } = plan;
        let ghost pf = facets@;
        let ghost pcs = children@;
        proof {
            lemma_plans_model(pcs);
            assert(old_self.nodes@[t as int].facets@ + pf.subrange(0, 0)
                =~= old_self.nodes@[t as int].facets@);
        }
        let mut fv = facets;
        let n = fv.len();
        let mut i: usize = 0;
        while fv.len() > 0
            invariant
                t < self.nodes@.len(),
                n == pf.len(),
                self.only_node_changed(old_self, t as int),
                i + fv@.len() == pf.len(),
                fv@ == pf.subrange(i as int, pf.len() as int),
                self.nodes@[t as int].facets@ == old_self.nodes@[t as int].facets@ + pf.subrange(
                    0,
                    i as int,
                ),
                self.nodes@[t as int].children == old_self.nodes@[t as int].children,
                self.nodes@[t as int].parent == old_self.nodes@[t as int].parent,
            decreases fv@.len(),
        {
            let f = fv.remove(0);
            self.attach(t, f);
            i = i + 1;
            proof {
                assert(old_self.nodes@[t as int].facets@ + pf.subrange(0, i as int) =~= (
                old_self.nodes@[t as int].facets@ + pf.subrange(0, i - 1)).push(f));
                assert(fv@ =~= pf.subrange(i as int, pf.len() as int));
            }
        }
        proof {
            assert(pf.subrange(0, pf.len() as int) =~= pf);
        }
        let ghost pid = id;
        let ghost names0 = self.names@;
        match id {
            Some(name) => self.register_name(name, t),
            None => {},
        }
        proof {
            assert(names0 == old_self.names@);
        }
        let ghost cms = plans_model(pcs);
        let ghost old_kids = old_self.nodes@[t as int].children@;
        let mut cv = children;
        let m = cv.len();
        let mut k: usize = 0;
        proof {
            assert(cms.subrange(0, 0) =~= Seq::<PlanView>::empty());
            assert(old_kids.subrange(0, old_kids.len() as int) =~= old_kids);
            assert(pm.children == cms);
            lemma_forest_monotone(cms, 0);
        }
        while cv.len() > 0
            invariant
                t < old_self.nodes@.len(),
                m == pcs.len(),
                pcs == plan.children@,
                cms == plans_model(pcs),
                cms.len() == pcs.len(),
                forall|j: int| 0 <= j < pcs.len() ==> #[trigger] cms[j] == pcs[j].model(),
                k + cv@.len() == pcs.len(),
                cv@ == pcs.subrange(k as int, pcs.len() as int),
                old_self.nodes@.len() + forest_size(cms) <= usize::MAX,
                self.nodes@.len() == old_self.nodes@.len() + forest_size(cms.subrange(0, k as int)),
                forall|i: int|
                    0 <= i < old_self.nodes@.len() && i != t ==> self.nodes@[i]
                        == old_self.nodes@[i],
                self.nodes@[t as int].facets@ == old_self.nodes@[t as int].facets@ + pf,
                self.nodes@[t as int].parent == old_self.nodes@[t as int].parent,
                self.nodes@[t as int].children@.len() == old_kids.len() + k,
                self.nodes@[t as int].children@.subrange(0, old_kids.len() as int) == old_kids,
                forall|j: int|
                    old_kids.len() <= j < self.nodes@[t as int].children@.len()
                        ==> old_self.nodes@.len() <= #[trigger] self.nodes@[t as int].children@[j]
                        < self.nodes@.len(),
                old_self.names@.len() <= self.names@.len(),
                self.names@.subrange(0, old_self.names@.len() as int) == old_self.names@,
                id_named(old_self.names@, self.names@, pid, t),
                forall|j: int|
                    old_kids.len() <= j < self.nodes@[t as int].children@.len()
                        ==> self.nodes@[(#[trigger] self.nodes@[t as int].children@[j]) as int].parent
                        == Some(t) && facet_map(
                        self.nodes@[self.nodes@[t as int].children@[j] as int].facets@,
                    ) == cms[j - old_kids.len()].facets,
                forall|a: int, b: int|
                    old_kids.len() <= a < b < self.nodes@[t as int].children@.len()
                        ==> self.nodes@[t as int].children@[a] < self.nodes@[t as int].children@[b],
            decreases cv@.len(),
        {
            let child = cv.remove(0);
            proof {
                assert(cms.subrange(0, k + 1).drop_last() =~= cms.subrange(0, k as int));
                assert(cms.subrange(0, k + 1).last() == child.model());
                lemma_forest_monotone(cms, k + 1);
                lemma_tree_size_pos(child.model());
                assert(cv@ =~= pcs.subrange(k + 1, pcs.len() as int));
                assert(child == pcs[k as int]);
                assert(decreases_to!(plan.children => plan.children@[k as int]));
            }
            let ghost before = *self;
            let c = self.spawn(Some(t));
            let ghost spawned = *self;
            self.commit(c, child);
            proof {
                assert(child.model() == cms[k as int]);
                assert(spawned.nodes@[c as int].facets@.len() == 0);
                assert(self.nodes@[c as int].facets@ =~= child.facets@);
            }
            let ghost after = *self;
            let mut node = self.nodes.remove(t);
            node.children.push(c);
            self.nodes.insert(t, node);
            proof {
                assert(self.nodes@ =~= after.nodes@.update(t as int, node));
                assert(self.nodes@[t as int].children@.subrange(0, old_kids.len() as int)
                    =~= before.nodes@[t as int].children@.subrange(0, old_kids.len() as int));
                assert forall|j: int|
                    old_kids.len() <= j < self.nodes@[t as int].children@.len() implies
                    old_self.nodes@.len() <= #[trigger] self.nodes@[t as int].children@[j]
                        < self.nodes@.len() by {
                    if j < self.nodes@[t as int].children@.len() - 1 {
                        assert(self.nodes@[t as int].children@[j] == before.nodes@[t as int].children@[j]);
                    }
                }
                assert forall|j: int|
                    old_kids.len() <= j < self.nodes@[t as int].children@.len() implies
                    self.nodes@[(#[trigger] self.nodes@[t as int].children@[j]) as int].parent
                        == Some(t) && facet_map(
                        self.nodes@[self.nodes@[t as int].children@[j] as int].facets@,
                    ) == cms[j - old_kids.len()].facets by {
                    if j < self.nodes@[t as int].children@.len() - 1 {
                        let cj = before.nodes@[t as int].children@[j];
                        assert(self.nodes@[t as int].children@[j] == cj);
                        assert(cj < before.nodes@.len());
                        assert(self.nodes@[cj as int] == before.nodes@[cj as int]);
                    } else {
                        assert(self.nodes@[t as int].children@[j] == c);
                    }
                }
                assert forall|a: int, b: int|
                    old_kids.len() <= a < b < self.nodes@[t as int].children@.len() implies
                    self.nodes@[t as int].children@[a] < self.nodes@[t as int].children@[b] by {
                    assert(self.nodes@[t as int].children@[a] == before.nodes@[t as int].children@[a]);
                    if b < self.nodes@[t as int].children@.len() - 1 {
                        assert(self.nodes@[t as int].children@[b] == before.nodes@[t as int].children@[b]);
                    }
                }
            }
            k = k + 1;
        }
        proof {
            assert(cms.subrange(0, k as int) =~= cms);
        }
    }

    pub fn new() -> (r: Graph)
        ensures
            r.nodes@.len() == 0,
            r.names@.len() == 0,
    {
        Graph { nodes: Vec::new(), names: Vec::new() }
    }

    /// Creates an empty node.
    pub fn spawn(&mut self, parent: Option<usize>) -> (r: usize)
        requires
            old(self).nodes@.len() < usize::MAX,
        ensures
            r == old(self).nodes@.len(),
            final(self).nodes@ == old(self).nodes@.push(
                GraphNode { facets: final(self).nodes@[r as int].facets, children: final(self).nodes@[r as int].children, parent },
            ),
            final(self).nodes@[r as int].facets@.len() == 0,
            final(self).nodes@[r as int].children@.len() == 0,
            final(self).names == old(self).names,
    {
        let r = self.nodes.len();
        self.nodes.push(GraphNode { facets: Vec::new(), children: Vec::new(), parent });
        r
    }
}

proof fn lemma_push_contains(s: Seq<usize>, c: usize, x: usize)
    ensures
        s.push(c).contains(x) <==> (s.contains(x) || x == c),
{
    if s.push(c).contains(x) {
        let j = choose|j: int| 0 <= j < s.push(c).len() && s.push(c)[j] == x;
        if j < s.len() {
            assert(s[j] == x);
        }
    }
    if s.contains(x) {
        let j = choose|j: int| 0 <= j < s.len() && s[j] == x;
        assert(s.push(c)[j] == x);
    }
    if x == c {
        assert(s.push(c)[s.len() as int] == x);
    }
}

/// Node `i` after the children of node `t` were detached.
pub open spec fn detached(old: Graph, t: int, i: int) -> GraphNode {
    if old.nodes@[t].children@.contains(i as usize) {
        GraphNode { parent: None, ..old.nodes@[i] }
    } else {
        old.nodes@[i]
    }
}

/// Where the plan's identifier is `Some(n)`, the first name registered after
/// `before` is `n` for node `t`.
pub open spec fn id_named(before: Seq<NameEntry>, after: Seq<NameEntry>, id: Option<String>, t: usize) -> bool {
    id matches Some(nm) ==> before.len() < after.len() && after[before.len() as int] == (NameEntry {
        name: nm,
        node: t,
    })
}

/// The number of nodes in a plan tree.
pub open spec fn tree_size(p: PlanView) -> nat
    decreases p, 1nat,
{
    1 + forest_size(p.children)
}

pub open spec fn forest_size(s: Seq<PlanView>) -> nat
    decreases s, 0nat,
{
    if s.len() == 0 {
        0
    } else {
        forest_size(s.drop_last()) + tree_size(s.last())
    }
}

pub proof fn lemma_plans_model(s: Seq<Plan>)
    ensures
        plans_model(s).len() == s.len(),
        forall|i: int| 0 <= i < s.len() ==> #[trigger] plans_model(s)[i] == s[i].model(),
    decreases s.len(),
{
    if s.len() > 0 {
        lemma_plans_model(s.drop_last());
    }
}

/// The number of nodes in a plan tree, where that fits in `usize`.
pub fn plan_size(p: &Plan) -> (r: Option<usize>)
    ensures
        match r {
            Some(n) => n as nat == tree_size(p.model()),
            None => tree_size(p.model()) > usize::MAX,
        },
    decreases p,
{
    let mut total: usize = 1;
    let mut k: usize = 0;
    proof {
        lemma_plans_model(p.children@);
        assert(p.model().children.subrange(0, 0) =~= Seq::<PlanView>::empty());
    }
    while k < p.children.len()
        invariant
            k <= p.children@.len(),
            plans_model(p.children@).len() == p.children@.len(),
            forall|i: int|
                0 <= i < p.children@.len() ==> #[trigger] plans_model(p.children@)[i]
                    == p.children@[i].model(),
            total as nat == 1 + forest_size(plans_model(p.children@).subrange(0, k as int)),
        decreases p.children@.len() - k,
    {
        let ghost cs = plans_model(p.children@);
        proof {
            assert(cs.subrange(0, k + 1).drop_last() =~= cs.subrange(0, k as int));
        }
        proof {
            assert(decreases_to!(p.children => p.children[k as int]));
        }
        match plan_size(&p.children[k]) {
            None => {
                proof {
                    lemma_forest_monotone(cs, k + 1);
                    assert(cs.subrange(0, cs.len() as int) =~= cs);
                }
                return None;
            },
            Some(n) => {
                if total > usize::MAX - n {
                    proof {
                        lemma_forest_monotone(cs, k + 1);
                        assert(cs.subrange(0, cs.len() as int) =~= cs);
                    }
                    return None;
                }
                total = total + n;
            },
        }
        k = k + 1;
    }
    proof {
        assert(plans_model(p.children@).subrange(0, p.children@.len() as int) =~= plans_model(
            p.children@,
        ));
    }
    Some(total)
}

proof fn lemma_forest_monotone(s: Seq<PlanView>, k: int)
    requires
        0 <= k <= s.len(),
    ensures
        forest_size(s.subrange(0, k)) <= forest_size(s),
    decreases s.len() - k,
{
    if k < s.len() {
        assert(s.subrange(0, k + 1).drop_last() =~= s.subrange(0, k));
        lemma_forest_monotone(s, k + 1);
    } else {
        assert(s.subrange(0, k) =~= s);
    }
}

pub proof fn lemma_tree_size_pos(p: PlanView)
    ensures
        tree_size(p) >= 1,
{
}

} // verus!
