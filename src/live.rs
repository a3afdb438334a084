//! Live patching: triggers that fire in a pass, the functions they call, and
//! the swaps that splice the resulting documents into the graph.
use vstd::prelude::*;
use crate::error::{ErrView, HTMLSceneSpawnError};
use crate::named_system_registry::{FunctionEntry, Host, NamedSystemRegistry, document_refusal};
use crate::graph::{Graph, GraphNode, NameEntry, detached, plan_size, tree_size};
use crate::instance::{IView, Instance, items_model, lemma_items_model_len, lemma_model_shape};
use crate::resolve::{agrees, resolve_plan};
use crate::registry::{LeafParser, Shape, TypeDescriptor, TypeRegistry, Variant, VariantKind};
use crate::scene::{
    Element, Facet, Plan, PlanView, ReadElement, assemble, assembled, facet_map, read_element, read_tree,
};

verus! {

/// How a replacement is spliced in at the target.
#[derive(Debug, Clone, Copy, PartialEq, Eq, Structural)]
pub enum XSwap {
    /// The target's facets and children are replaced; its identity stays.
    Outer,
    /// The target's children are replaced by one new child.
    Inner,
    /// One new child is put before the target's children.
    Front,
    /// One new child is put after the target's children.
    Back,
}

/// Which node a replacement goes to, seen from the trigger's node.
#[derive(Debug, Clone, PartialEq, Eq)]
pub enum XTarget {
    This,
    NextSibling,
    PreviousSibling,
    Root,
    /// The node last registered under this name.
    Name(String),
    /// The node last registered under this name below the trigger's node.
    ChildName(String),
    /// A node by its index.
    Entity(u64),
}

/// When a trigger fires.
#[derive(Debug, Clone, PartialEq, Eq)]
pub enum XOn {
    /// When its node is newly materialized.
    Create,
    /// In every pass.
    Update,
    /// When at least this many milliseconds have passed since it last fired.
    Fixed(u64),
    /// When its node is pressed.
    Click,
    /// When an event of this name is raised.
    Event(String),
}

/// The name of the document function that a trigger calls.
#[derive(Debug, Clone, PartialEq, Eq)]
pub struct XFunction(pub String);

/// A trigger bound to a node.
#[derive(Debug, PartialEq, Eq)]
pub struct Trigger {
    pub node: usize,
    pub function: XFunction,
    pub on: XOn,
    pub swap: XSwap,
    pub target: XTarget,
    /// When it last fired, in milliseconds.
    pub last_fired: u64,
}

impl Default for XSwap {
    fn default() -> (r: XSwap)
        ensures
            r == XSwap::Outer,
    {
        XSwap::Outer
    }
}

impl Default for XTarget {
    fn default() -> (r: XTarget)
        ensures
            r == XTarget::This,
    {
        XTarget::This
    }
}

impl Default for XOn {
    fn default() -> (r: XOn)
        ensures
            r == XOn::Create,
    {
        XOn::Create
    }
}

/// What was observed in one pass.
pub struct PassEvents {
    pub created: Vec<usize>,
    pub pressed: Vec<usize>,
    pub raised: Vec<String>,
    /// The time of the pass, in milliseconds.
    pub now: u64,
}

pub open spec fn raised(ev: PassEvents, name: Seq<char>) -> bool {
    exists|i: int| 0 <= i < ev.raised@.len() && (#[trigger] ev.raised@[i])@ == name
}

/// Whether trigger `t` fires in the pass that observed `ev`.
pub open spec fn fires(t: Trigger, ev: PassEvents) -> bool {
    match t.on {
        XOn::Create => ev.created@.contains(t.node),
        XOn::Update => true,
        XOn::Fixed(d) => ev.now >= t.last_fired && ev.now - t.last_fired >= d,
        XOn::Click => ev.pressed@.contains(t.node),
        XOn::Event(name) => raised(ev, name@),
    }
}

/// The positions, in order, of the triggers among the first `k` that fire.
pub open spec fn firing(ts: Seq<Trigger>, ev: PassEvents, k: int) -> Seq<usize>
    decreases k,
{
    if k <= 0 {
        Seq::empty()
    } else if fires(ts[k - 1], ev) {
        firing(ts, ev, k - 1).push((k - 1) as usize)
    } else {
        firing(ts, ev, k - 1)
    }
}

fn contains_node(v: &Vec<usize>, x: usize) -> (r: bool)
    ensures
        r == v@.contains(x),
{
    let mut i: usize = 0;
    while i < v.len()
        invariant
            i <= v@.len(),
            forall|j: int| 0 <= j < i ==> v@[j] != x,
        decreases v@.len() - i,
    {
        if v[i] == x {
            return true;
        }
        i = i + 1;
    }
    false
}

fn is_raised(ev: &PassEvents, name: &String) -> (r: bool)
    ensures
        r == raised(*ev, name@),
{
    let mut i: usize = 0;
    while i < ev.raised.len()
        invariant
            i <= ev.raised@.len(),
            forall|j: int| 0 <= j < i ==> (#[trigger] ev.raised@[j])@ != name@,
        decreases ev.raised@.len() - i,
    {
        if ev.raised[i] == *name {
            return true;
        }
        i = i + 1;
    }
    false
}

/// Whether trigger `t` fires in this pass.
pub fn trigger_fires(t: &Trigger, ev: &PassEvents) -> (r: bool)
    ensures
        r == fires(*t, *ev),
{
    match &t.on {
        XOn::Create => contains_node(&ev.created, t.node),
        XOn::Update => true,
        XOn::Fixed(d) => ev.now >= t.last_fired && ev.now - t.last_fired >= *d,
        XOn::Click => contains_node(&ev.pressed, t.node),
        XOn::Event(name) => is_raised(ev, name),
    }
}

/// The positions of the triggers that fire in this pass, in order.
pub fn find_to_run(triggers: &Vec<Trigger>, ev: &PassEvents) -> (r: Vec<usize>)
    ensures
        r@ == firing(triggers@, *ev, triggers@.len() as int),
{
    let mut out: Vec<usize> = Vec::new();
    let mut k: usize = 0;
    while k < triggers.len()
        invariant
            k <= triggers@.len(),
            out@ == firing(triggers@, *ev, k as int),
        decreases triggers@.len() - k,
    {
        if trigger_fires(&triggers[k], ev) {
            out.push(k);
        }
        k = k + 1;
    }
    out
}

/// The node last registered under `name` among the first `k` entries.
pub open spec fn name_lookup(names: Seq<NameEntry>, name: Seq<char>, k: int) -> Option<usize>
    decreases k,
{
    if k <= 0 || k > names.len() {
        None
    } else if names[k - 1].name@ == name {
        Some(names[k - 1].node)
    } else {
        name_lookup(names, name, k - 1)
    }
}

/// Whether `a` is a proper ancestor of `d`, following at most `fuel` parent links.
pub open spec fn descends(nodes: Seq<GraphNode>, d: int, a: int, fuel: nat) -> bool
    decreases fuel,
{
    if fuel == 0 || d < 0 || d >= nodes.len() {
        false
    } else {
        match nodes[d].parent {
            None => false,
            Some(p) => p == a || descends(nodes, p as int, a, (fuel - 1) as nat),
        }
    }
}

/// The node last registered under `name`, among the first `k` entries, that lies below `a`.
pub open spec fn child_name_lookup(g: Graph, name: Seq<char>, a: int, k: int) -> Option<usize>
    decreases k,
{
    if k <= 0 || k > g.names@.len() {
        None
    } else if g.names@[k - 1].name@ == name && descends(
        g.nodes@,
        g.names@[k - 1].node as int,
        a,
        g.nodes@.len(),
    ) {
        Some(g.names@[k - 1].node)
    } else {
        child_name_lookup(g, name, a, k - 1)
    }
}

/// The topmost ancestor of `d`, following at most `fuel` parent links.
pub open spec fn root_of(nodes: Seq<GraphNode>, d: int, fuel: nat) -> int
    decreases fuel,
{
    if fuel == 0 || d < 0 || d >= nodes.len() {
        d
    } else {
        match nodes[d].parent {
            None => d,
            Some(p) => root_of(nodes, p as int, (fuel - 1) as nat),
        }
    }
}

/// The first position of `x` in `s` from `k` on.
pub open spec fn position_from(s: Seq<usize>, x: usize, k: int) -> Option<int>
    decreases s.len() - k,
{
    if k < 0 || k >= s.len() {
        None
    } else if s[k] == x {
        Some(k)
    } else {
        position_from(s, x, k + 1)
    }
}

/// The sibling `offset` places from `d` in its parent's children.
pub open spec fn sibling(nodes: Seq<GraphNode>, d: int, offset: int) -> Option<usize> {
    if d < 0 || d >= nodes.len() {
        None
    } else {
        match nodes[d].parent {
            None => None,
            Some(p) => if p >= nodes.len() {
                None
            } else {
                let kids = nodes[p as int].children@;
                match position_from(kids, d as usize, 0) {
                    None => None,
                    Some(i) => if 0 <= i + offset < kids.len() {
                        Some(kids[i + offset])
                    } else {
                        None
                    },
                }
            },
        }
    }
}

/// The node that `target` designates from node `node`, if any.
pub open spec fn target_of(g: Graph, node: int, target: XTarget) -> Option<usize> {
    let found = match target {
        XTarget::This => Some(node as usize),
        XTarget::Name(n) => name_lookup(g.names@, n@, g.names@.len() as int),
        XTarget::ChildName(n) => child_name_lookup(g, n@, node, g.names@.len() as int),
        XTarget::Entity(e) => if e < g.nodes@.len() {
            Some(e as usize)
        } else {
            None
        },
        XTarget::Root => Some(root_of(g.nodes@, node, g.nodes@.len()) as usize),
        XTarget::NextSibling => sibling(g.nodes@, node, 1),
        XTarget::PreviousSibling => sibling(g.nodes@, node, -1),
    };
    if 0 <= node < g.nodes@.len() {
        match found {
            Some(t) => if t < g.nodes@.len() {
                Some(t)
            } else {
                None
            },
            None => None,
        }
    } else {
        None
    }
}

/// What an unresolved target is reported as.
pub open spec fn target_label(target: XTarget) -> Seq<char> {
    match target {
        XTarget::Name(n) => n@,
        XTarget::ChildName(n) => n@,
        XTarget::This => "This"@,
        XTarget::NextSibling => "NextSibling"@,
        XTarget::PreviousSibling => "PreviousSibling"@,
        XTarget::Root => "Root"@,
        XTarget::Entity(_) => "Entity"@,
    }
}

fn label(target: &XTarget) -> (r: String)
    ensures
        r@ == target_label(*target),
{
    match target {
        XTarget::Name(n) => n.clone(),
        XTarget::ChildName(n) => n.clone(),
        XTarget::This => String::from_str("This"),
        XTarget::NextSibling => String::from_str("NextSibling"),
        XTarget::PreviousSibling => String::from_str("PreviousSibling"),
        XTarget::Root => String::from_str("Root"),
        XTarget::Entity(_) => String::from_str("Entity"),
    }
}

fn is_below(g: &Graph, d: usize, a: usize) -> (r: bool)
    ensures
        r == descends(g.nodes@, d as int, a as int, g.nodes@.len()),
{
    let n = g.nodes.len();
    let mut cur = d;
    let mut fuel = n;
    while fuel > 0 && cur < n
        invariant
            n == g.nodes@.len(),
            fuel <= n,
            descends(g.nodes@, d as int, a as int, n as nat) == descends(
                g.nodes@,
                cur as int,
                a as int,
                fuel as nat,
            ),
        decreases fuel,
    {
        match g.nodes[cur].parent {
            None => {
                return false;
            },
            Some(p) => {
                if p == a {
                    return true;
                }
                cur = p;
                fuel = fuel - 1;
            },
        }
    }
    false
}

/// Resolves a swap target seen from node `node`.
pub fn resolve_target(g: &Graph, node: usize, target: &XTarget) -> (r: Result<usize, HTMLSceneSpawnError>)
    ensures
        match target_of(*g, node as int, *target) {
            Some(t) => r == Ok::<usize, HTMLSceneSpawnError>(t),
            None => r matches Err(e) && e@ == ErrView::UnresolvedTarget(target_label(*target)),
        },
{
    let n = g.nodes.len();
    if node >= n {
        return Err(HTMLSceneSpawnError::UnresolvedTarget(label(target)));
    }
    let found: Option<usize> = match target {
        XTarget::This => Some(node),
        XTarget::Name(name) => lookup_name(g, name),
        XTarget::ChildName(name) => lookup_child_name(g, name, node),
        XTarget::Entity(e) => if *e < n as u64 {
            Some(*e as usize)
        } else {
            None
        },
        XTarget::Root => Some(root(g, node)),
        XTarget::NextSibling => sibling_of(g, node, true),
        XTarget::PreviousSibling => sibling_of(g, node, false),
    };
    match found {
        Some(t) => if t < n {
            Ok(t)
        } else {
            Err(HTMLSceneSpawnError::UnresolvedTarget(label(target)))
        },
        None => Err(HTMLSceneSpawnError::UnresolvedTarget(label(target))),
    }
}

fn sibling_of(g: &Graph, d: usize, next: bool) -> (r: Option<usize>)
    requires
        d < g.nodes@.len(),
    ensures
        r == sibling(g.nodes@, d as int, if next { 1int } else { -1int }),
{
    let p = match g.nodes[d].parent {
        None => {
            return None;
        },
        Some(p) => p,
    };
    if p >= g.nodes.len() {
        return None;
    }
    let kids = &g.nodes[p].children;
    let mut i: usize = 0;
    while i < kids.len()
        invariant
            i <= kids@.len(),
            d < g.nodes@.len(),
            p < g.nodes@.len(),
            g.nodes@[d as int].parent == Some(p),
            *kids == g.nodes@[p as int].children,
            position_from(kids@, d, 0) == position_from(kids@, d, i as int),
        decreases kids@.len() - i,
    {
        if kids[i] == d {
            if next {
                if i + 1 < kids.len() {
                    return Some(kids[i + 1]);
                }
                return None;
            } else {
                if i >= 1 {
                    return Some(kids[i - 1]);
                }
                return None;
            }
        }
        i = i + 1;
    }
    None
}

fn lookup_name(g: &Graph, name: &String) -> (r: Option<usize>)
    ensures
        r == name_lookup(g.names@, name@, g.names@.len() as int),
{
    let mut k = g.names.len();
    while k > 0
        invariant
            k <= g.names@.len(),
            name_lookup(g.names@, name@, g.names@.len() as int) == name_lookup(
                g.names@,
                name@,
                k as int,
            ),
        decreases k,
    {
        if g.names[k - 1].name == *name {
            return Some(g.names[k - 1].node);
        }
        k = k - 1;
    }
    None
}

fn lookup_child_name(g: &Graph, name: &String, a: usize) -> (r: Option<usize>)
    ensures
        r == child_name_lookup(*g, name@, a as int, g.names@.len() as int),
{
    let mut k = g.names.len();
    while k > 0
        invariant
            k <= g.names@.len(),
            child_name_lookup(*g, name@, a as int, g.names@.len() as int) == child_name_lookup(
                *g,
                name@,
                a as int,
                k as int,
            ),
        decreases k,
    {
        if g.names[k - 1].name == *name && is_below(g, g.names[k - 1].node, a) {
            return Some(g.names[k - 1].node);
        }
        k = k - 1;
    }
    None
}

fn root(g: &Graph, node: usize) -> (r: usize)
    ensures
        r as int == root_of(g.nodes@, node as int, g.nodes@.len()),
{
    let n = g.nodes.len();
    let mut cur = node;
    let mut fuel = n;
    while fuel > 0 && cur < n
        invariant
            n == g.nodes@.len(),
            fuel <= n,
            root_of(g.nodes@, node as int, n as nat) == root_of(g.nodes@, cur as int, fuel as nat),
        decreases fuel,
    {
        match g.nodes[cur].parent {
            None => {
                return cur;
            },
            Some(p) => {
                cur = p;
                fuel = fuel - 1;
            },
        }
    }
    cur
}

/// What a swap of mode `swap` at `target` did, where the replacement was
/// materialized at node `r`.
pub open spec fn swapped(old: Graph, new: Graph, target: int, swap: XSwap, plan: PlanView, r: int) -> bool {
    let kids = old.nodes@[target].children@;
    &&& old.nodes@.len() <= new.nodes@.len()
    &&& forall|i: int|
        0 <= i < old.nodes@.len() && i != target ==> #[trigger] new.nodes@[i] == if swap == XSwap::Outer
            || swap == XSwap::Inner {
            detached(old, target, i)
        } else {
            old.nodes@[i]
        }
    &&& new.nodes@[target].parent == old.nodes@[target].parent
    &&& 0 <= r < new.nodes@.len()
    &&& facet_map(new.nodes@[r].facets@) == plan.facets
    &&& new.nodes@[r].children@.len() == plan.children.len()
    &&& forall|j: int|
        0 <= j < new.nodes@[r].children@.len() ==> new.nodes@[(#[trigger] new.nodes@[r].children@[j]) as int].parent
            == Some(r as usize) && facet_map(new.nodes@[new.nodes@[r].children@[j] as int].facets@)
            == plan.children[j].facets
    &&& match swap {
        XSwap::Outer => r == target,
        XSwap::Inner => {
            &&& r == old.nodes@.len()
            &&& new.nodes@[target].children@ == seq![r as usize]
            &&& new.nodes@[target].facets == old.nodes@[target].facets
        },
        XSwap::Front => {
            &&& r == old.nodes@.len()
            &&& new.nodes@[target].children@ == seq![r as usize] + kids
            &&& new.nodes@[target].facets == old.nodes@[target].facets
        },
        XSwap::Back => {
            &&& r == old.nodes@.len()
            &&& new.nodes@[target].children@ == kids.push(r as usize)
            &&& new.nodes@[target].facets == old.nodes@[target].facets
        },
    }
}

/// Splices an assembled replacement in at `target`, by `swap`; returns the node
/// that the replacement was materialized at.
pub fn apply_swap(g: &mut Graph, target: usize, swap: XSwap, plan: Plan) -> (r: usize)
    requires
        target < old(g).nodes@.len(),
        old(g).nodes@.len() + tree_size(plan.model()) <= usize::MAX,
    ensures
        swapped(*old(g), *final(g), target as int, swap, plan.model(), r as int),
{
    let ghost pm = plan.model();
    proof {
        assert(plan.facets@ =~= Seq::<crate::scene::Facet>::empty() + plan.facets@);
        crate::graph::lemma_tree_size_pos(pm);
        crate::graph::lemma_plans_model(plan.children@);
    }
    match swap {
        XSwap::Outer => {
            g.detach_children(target);
            let parent = g.nodes[target].parent;
            g.replace_node(target, GraphNode { facets: Vec::new(), children: Vec::new(), parent });
            g.commit(target, plan);
            target
        },
        _ => {
            if swap == XSwap::Inner {
                g.detach_children(target);
            }
            let c = g.spawn(Some(target));
            g.commit(c, plan);
            match swap {
                XSwap::Front => g.add_child(target, c, true),
                XSwap::Back => g.add_child(target, c, false),
                _ => {
                    let mut v: Vec<usize> = Vec::new();
                    v.push(c);
                    assert(v@ =~= seq![c]);
                    g.set_children(target, v);
                },
            }
            c
        },
    }
}

/// Assembles `doc` and splices it in at `target` by `swap`. Nothing changes
/// where the assembly fails, or where the graph has no room left for the new
/// nodes. On success the node that the
/// replacement lands on holds exactly the facets that a fresh assembly of `doc`
/// produces.
pub fn swap_document(
    g: &mut Graph,
    types: &TypeRegistry,
    fns: &NamedSystemRegistry,
    target: usize,
    swap: XSwap,
    doc: &ReadElement,
) -> (r: Result<usize, HTMLSceneSpawnError>)
    requires
        target < old(g).nodes@.len(),
    ensures
        match assembled(types.types@, fns.entries(), *doc) {
            Err(e) => r matches Err(x) && x@ == e && *final(g) == *old(g),
            Ok(p) => match r {
                Ok(n) => swapped(*old(g), *final(g), target as int, swap, p, n as int),
                Err(_) => *final(g) == *old(g) && old(g).nodes@.len() + tree_size(p) > usize::MAX,
            },
        },
{
    let plan = match assemble(types, fns, doc) {
        Err(e) => {
            return Err(e);
        },
        Ok(p) => p,
    };
    let room = match plan_size(&plan) {
        Some(n) => g.nodes.len() <= usize::MAX - n,
        None => false,
    };
    if room {
        Ok(apply_swap(g, target, swap, plan))
    } else {
        Err(HTMLSceneSpawnError::GraphFull)
    }
}

/// Materializes document `doc` at node `target`: reads it, assembles it, runs
/// its pending constructor calls, and attaches the result to `target`, its
/// children as new nodes after the children `target` has. The graph changes only
/// where all of these succeed and there is room for the new nodes.
pub fn spawn_document<H: Host>(
    g: &mut Graph,
    types: &TypeRegistry,
    fns: &mut NamedSystemRegistry,
    host: &mut H,
    target: usize,
    doc: &Element,
) -> (r: Result<(), HTMLSceneSpawnError>)
    requires
        target < old(g).nodes@.len(),
    ensures
        r is Err ==> *final(g) == *old(g),
        exists|rd: ReadElement|
            #[trigger] read_tree(rd, *doc) && match assembled(types.types@, old(fns).entries(), rd) {
                Err(e) => r matches Err(x) && x@ == e,
                Ok(a) => r is Ok ==> exists|pl: Plan|
                    resolved_from(a, #[trigger] pl.model())
                        && final(g).nodes@[target as int].facets@ == old(g).nodes@[target as int].facets@ + pl.facets@
                        && final(g).nodes@[target as int].children@.len() == old(g).nodes@[target as int].children@.len() + pl.children@.len(),
            },
{
    let read = read_element(doc);
    let plan = match assemble(types, &*fns, &read) {
        Err(e) => {
            return Err(e);
        },
        Ok(p) => p,
    };
    let ghost a = plan.model();
    let ghost pl = plan;
    let resolved = match resolve_plan(plan, fns, host) {
        Err(e) => {
            return Err(e);
        },
        Ok(p) => p,
    };
    proof {
        lemma_facet_map_agrees(pl.facets@, resolved.facets@);
        crate::graph::lemma_plans_model(pl.children@);
        crate::graph::lemma_plans_model(resolved.children@);
        assert(resolved_from(a, resolved.model()));
    }
    let room = match plan_size(&resolved) {
        Some(n) => g.nodes.len() <= usize::MAX - n,
        None => false,
    };
    if room {
        let ghost rp = resolved;
        g.commit(target, resolved);
        proof {
            assert(resolved_from(a, rp.model()));
        }
        Ok(())
    } else {
        Err(HTMLSceneSpawnError::GraphFull)
    }
}

/// Whether `i` is among the first `k` positions of `f`.
pub open spec fn seen(f: Seq<usize>, k: int, i: int) -> bool {
    exists|j: int| 0 <= j < k && #[trigger] f[j] == i as usize
}

/// The trigger after firing at time `now`.
pub open spec fn fired(t: Trigger, now: u64) -> Trigger {
    Trigger { last_fired: now, ..t }
}

/// The name of the document function of trigger `t`.
pub open spec fn function_name(t: Trigger) -> Seq<char> {
    t.function.0@
}

/// Whether the table `s` refuses the document calls of the triggers at the
/// first `k` positions of `f`.
pub open spec fn refused_upto(s: Seq<FunctionEntry>, ts: Seq<Trigger>, f: Seq<usize>, k: int) -> bool {
    forall|j: int| 0 <= j < k ==> #[trigger] document_refusal(s, function_name(ts[f[j] as int])) is Some
}

/// Calls the document function of each trigger at the positions `firing`, in
/// order, one call each. The graph is only lent for reading, so every call sees
/// it as it stood before any of them. A call that the table refuses yields the
/// refusal; as long as every call so far was refused, the table is unchanged, so
/// each refusal is the one that the table held at the start gives.
pub fn collect_documents<H: Host>(
    g: &Graph,
    fns: &mut NamedSystemRegistry,
    host: &mut H,
    triggers: &Vec<Trigger>,
    firing: &Vec<usize>,
) -> (r: Vec<Result<Element, HTMLSceneSpawnError>>)
    requires
        forall|j: int| 0 <= j < firing@.len() ==> #[trigger] firing@[j] < triggers@.len(),
    ensures
        r@.len() == firing@.len(),
        forall|k: int|
            0 <= k < firing@.len() && refused_upto(old(fns).entries(), triggers@, firing@, k + 1)
                ==> ((#[trigger] r@[k]) matches Err(x) && x@ == document_refusal(
                old(fns).entries(),
                function_name(triggers@[firing@[k] as int]),
            )->0),
        refused_upto(old(fns).entries(), triggers@, firing@, firing@.len() as int)
            ==> final(fns).entries() == old(fns).entries(),
{
    let ghost t0 = fns.entries();
    let mut docs: Vec<Result<Element, HTMLSceneSpawnError>> = Vec::new();
    let mut k: usize = 0;
    while k < firing.len()
        invariant
            k <= firing@.len(),
            docs@.len() == k,
            t0 == old(fns).entries(),
            forall|j: int| 0 <= j < firing@.len() ==> #[trigger] firing@[j] < triggers@.len(),
            refused_upto(t0, triggers@, firing@, k as int) ==> fns.entries() == t0,
            forall|j: int|
                0 <= j < k && refused_upto(t0, triggers@, firing@, j + 1) ==> ((#[trigger] docs@[j])
                    matches Err(x) && x@ == document_refusal(
                    t0,
                    function_name(triggers@[firing@[j] as int]),
                )->0),
        decreases firing@.len() - k,
    {
        let i = firing[k];
        let ghost before = fns.entries();
        let d = fns.call(host, &triggers[i].function.0, g);
        proof {
            if refused_upto(t0, triggers@, firing@, k + 1) {
                assert(refused_upto(t0, triggers@, firing@, k as int));
                assert(document_refusal(t0, function_name(triggers@[firing@[k as int] as int])) is Some);
            }
        }
        docs.push(d);
        proof {
            assert forall|j: int|
                0 <= j < k + 1 && refused_upto(t0, triggers@, firing@, j + 1) implies ((#[trigger] docs@[j])
                matches Err(x) && x@ == document_refusal(
                t0,
                function_name(triggers@[firing@[j] as int]),
            )->0) by {
                if j < k {
                    assert(docs@[j] == docs@.drop_last()[j]);
                } else {
                    assert(refused_upto(t0, triggers@, firing@, k as int));
                }
            }
        }
        k = k + 1;
    }
    docs
}

/// What one step of a pass did: a failed swap leaves the graph as it was; a
/// swap whose target is not found fails; a swap that succeeded spliced some
/// plan in at the node that the target designated.
pub open spec fn pass_step(g0: Graph, g1: Graph, t: Trigger, res: Result<usize, HTMLSceneSpawnError>) -> bool {
    &&& res is Err ==> g1 == g0
    &&& target_of(g0, t.node as int, t.target) is None ==> res is Err
    &&& res matches Ok(n) ==> target_of(g0, t.node as int, t.target) is Some && exists|p: PlanView|
        swapped(g0, g1, target_of(g0, t.node as int, t.target)->0 as int, t.swap, p, n as int)
}

proof fn lemma_step_done(g0: Graph, g1: Graph, t: Trigger, n: usize, p: PlanView)
    requires
        target_of(g0, t.node as int, t.target) is Some,
        swapped(g0, g1, target_of(g0, t.node as int, t.target)->0 as int, t.swap, p, n as int),
    ensures
        pass_step(g0, g1, t, Ok(n)),
{
    let res: Result<usize, HTMLSceneSpawnError> = Ok(n);
    assert(res->Ok_0 == n);
}

/// Whether plan `p` is `a` with its pending calls run: the same facet types,
/// each value agreeing outside the calls, the same identifier and as many children.
pub open spec fn resolved_from(a: PlanView, p: PlanView) -> bool {
    &&& p.facets.dom() == a.facets.dom()
    &&& forall|k: Seq<char>| #[trigger] a.facets.contains_key(k) ==> agrees(a.facets[k], p.facets[k])
    &&& p.id == a.id
    &&& p.children.len() == a.children.len()
}

proof fn lemma_facet_map_agrees(a: Seq<Facet>, b: Seq<Facet>)
    requires
        a.len() == b.len(),
        forall|i: int|
            0 <= i < a.len() ==> (#[trigger] a[i]).ty@ == b[i].ty@ && agrees(
                a[i].value.model(),
                b[i].value.model(),
            ),
    ensures
        facet_map(b).dom() == facet_map(a).dom(),
        forall|k: Seq<char>|
            #[trigger] facet_map(a).contains_key(k) ==> agrees(facet_map(a)[k], facet_map(b)[k]),
    decreases a.len(),
{
    if a.len() > 0 {
        lemma_facet_map_agrees(a.drop_last(), b.drop_last());
        assert(facet_map(b).dom() =~= facet_map(a).dom());
    }
}

/// Splices in the document that trigger `t`'s function returned: reads it,
/// resolves `t`'s target, assembles the document, runs its pending constructor
/// calls, and applies `t`'s swap. The graph changes only where all of these
/// succeed and there is room for the new nodes.
pub fn swap_returned<H: Host>(
    g: &mut Graph,
    types: &TypeRegistry,
    fns: &mut NamedSystemRegistry,
    host: &mut H,
    t: &Trigger,
    doc: &Element,
) -> (r: Result<usize, HTMLSceneSpawnError>)
    ensures
        pass_step(*old(g), *final(g), *t, r),
        target_of(*old(g), t.node as int, t.target) is None ==> (r matches Err(e) && e@
            == ErrView::UnresolvedTarget(target_label(t.target))),
        target_of(*old(g), t.node as int, t.target) is Some ==> exists|rd: ReadElement|
            #[trigger] read_tree(rd, *doc) && match assembled(types.types@, old(fns).entries(), rd) {
                Err(e) => r matches Err(x) && x@ == e,
                Ok(a) => r matches Ok(n) ==> exists|p: PlanView|
                    resolved_from(a, p) && swapped(
                        *old(g),
                        *final(g),
                        target_of(*old(g), t.node as int, t.target)->0 as int,
                        t.swap,
                        p,
                        n as int,
                    ),
            },
{
    let read = read_element(doc);
    let target = match resolve_target(&*g, t.node, &t.target) {
        Err(e) => {
            return Err(e);
        },
        Ok(x) => x,
    };
    let plan = match assemble(types, &*fns, &read) {
        Err(e) => {
            return Err(e);
        },
        Ok(p) => p,
    };
    let ghost a = plan.model();
    let ghost pl = plan;
    let resolved = match resolve_plan(plan, fns, host) {
        Err(e) => {
            return Err(e);
        },
        Ok(p) => p,
    };
    proof {
        lemma_facet_map_agrees(pl.facets@, resolved.facets@);
        crate::graph::lemma_plans_model(pl.children@);
        crate::graph::lemma_plans_model(resolved.children@);
        assert(resolved_from(a, resolved.model()));
    }
    let room = match plan_size(&resolved) {
        Some(n) => g.nodes.len() <= usize::MAX - n,
        None => false,
    };
    if room {
        let ghost pm = resolved.model();
        let n = apply_swap(g, target, t.swap, resolved);
        proof {
            assert(swapped(*old(g), *g, target as int, t.swap, pm, n as int));
            assert(target_of(*old(g), t.node as int, t.target)->0 as int == target as int);
            assert(exists|p: PlanView|
                swapped(
                    *old(g),
                    *g,
                    target_of(*old(g), t.node as int, t.target)->0 as int,
                    t.swap,
                    p,
                    n as int,
                ));
        }
        let r: Result<usize, HTMLSceneSpawnError> = Ok(n);
        proof {
            lemma_step_done(*old(g), *g, *t, n, pm);
        }
        r
    } else {
        Err(HTMLSceneSpawnError::GraphFull)
    }
}

/// Runs one pass. The triggers that fire are found first; then each one's
/// document function is called, all of them while the graph is only lent for
/// reading, so that every call sees the graph as it was before the pass; only
/// then are the swaps applied, in the order of the triggers. A swap whose
/// document, target or assembly fails, or that finds no room left in the graph,
/// is passed over and changes nothing; the swaps before it stay applied.
/// Returns, for each trigger that fired, its position and the node that its
/// replacement was materialized at, or why there was none.
pub fn run_pass<H: Host>(
    g: &mut Graph,
    types: &TypeRegistry,
    fns: &mut NamedSystemRegistry,
    host: &mut H,
    triggers: &mut Vec<Trigger>,
    ev: &PassEvents,
) -> (r: Vec<(usize, Result<usize, HTMLSceneSpawnError>)>)
    ensures
        ({
            let f = firing(old(triggers)@, *ev, old(triggers)@.len() as int);
            &&& r@.len() == f.len()
            &&& forall|k: int| 0 <= k < f.len() ==> (#[trigger] r@[k]).0 == f[k]
            &&& forall|k: int|
                0 <= k < f.len() ==> ((#[trigger] r@[k]).1 matches Ok(n) ==> n < final(g).nodes@.len())
            &&& old(g).nodes@.len() <= final(g).nodes@.len()
            &&& exists|gs: Seq<Graph>|
                gs.len() == f.len() + 1 && gs[0] == *old(g) && gs[f.len() as int] == *final(g)
                    && forall|k: int|
                    0 <= k < f.len() ==> #[trigger] pass_step(
                        gs[k],
                        gs[k + 1],
                        old(triggers)@[f[k] as int],
                        r@[k].1,
                    )
            &&& forall|k: int|
                0 <= k < f.len() && refused_upto(old(fns).entries(), old(triggers)@, f, k + 1) ==> ((
                #[trigger] r@[k]).1 matches Err(x) && x@ == document_refusal(
                    old(fns).entries(),
                    function_name(old(triggers)@[f[k] as int]),
                )->0)
            &&& final(triggers)@.len() == old(triggers)@.len()
            &&& forall|i: int|
                0 <= i < old(triggers)@.len() ==> #[trigger] final(triggers)@[i] == if f.contains(
                    i as usize,
                ) {
                    fired(old(triggers)@[i], ev.now)
                } else {
                    old(triggers)@[i]
                }
        }),
{
    let ghost f = firing(triggers@, *ev, triggers@.len() as int);
    let firing_idx = find_to_run(triggers, ev);
    let n_triggers = triggers.len();
    proof {
        lemma_firing_bounds(triggers@, *ev, triggers@.len() as int);
    }
    let mut docs = collect_documents(&*g, fns, host, triggers, &firing_idx);
    let ghost before = triggers@;
    let mut k: usize = 0;
    while k < firing_idx.len()
        invariant
            firing_idx@ == f,
            k <= f.len(),
            triggers@.len() == before.len(),
            n_triggers == before.len(),
            forall|j: int| 0 <= j < f.len() ==> f[j] < before.len(),
            forall|a: int, b: int| 0 <= a < b < f.len() ==> f[a] < f[b],
            forall|i: int|
                0 <= i < before.len() ==> #[trigger] triggers@[i] == if seen(f, k as int, i) {
                    fired(before[i], ev.now)
                } else {
                    before[i]
                },
        decreases f.len() - k,
    {
        let i = firing_idx[k];
        let mut t = triggers.remove(i);
        t.last_fired = ev.now;
        triggers.insert(i, t);
        proof {
            assert forall|x: int| 0 <= x < before.len() implies #[trigger] triggers@[x] == if seen(
                f,
                k + 1,
                x,
            ) {
                fired(before[x], ev.now)
            } else {
                before[x]
            } by {
                if x == i {
                    assert(f[k as int] == i);
                    assert(!seen(f, k as int, x));
                } else {
                    if seen(f, k + 1, x) {
                        let w = choose|w: int| 0 <= w < k + 1 && #[trigger] f[w] == x as usize;
                        assert(x as usize as int == x);
                        assert(w != k);
                        assert(seen(f, k as int, x));
                    }
                    if seen(f, k as int, x) {
                        let w = choose|w: int| 0 <= w < k && #[trigger] f[w] == x as usize;
                        assert(seen(f, k + 1, x));
                    }
                }
            }
        }
        k = k + 1;
    }
    proof {
        assert forall|x: int| 0 <= x < before.len() implies seen(f, f.len() as int, x) == f.contains(
            x as usize,
        ) by {
            if f.contains(x as usize) {
                let w = choose|w: int| 0 <= w < f.len() && f[w] == x as usize;
                assert(seen(f, f.len() as int, x));
            }
        }
    }
    let mut out: Vec<(usize, Result<usize, HTMLSceneSpawnError>)> = Vec::new();
    let nf = firing_idx.len();
    let ghost alld = docs@;
    let ghost mut gs: Seq<Graph> = seq![*g];
    let mut k: usize = 0;
    while docs.len() > 0
        invariant
            firing_idx@ == f,
            nf == f.len(),
            alld.len() == f.len(),
            k + docs@.len() == f.len(),
            docs@ == alld.subrange(k as int, f.len() as int),
            out@.len() == k,
            forall|j: int| 0 <= j < k ==> (#[trigger] out@[j]).0 == f[j],
            forall|j: int| 0 <= j < k ==> ((#[trigger] out@[j]).1 matches Ok(n) ==> n < g.nodes@.len()),
            old(g).nodes@.len() <= g.nodes@.len(),
            forall|j: int| 0 <= j < f.len() ==> f[j] < triggers@.len(),
            triggers@.len() == before.len(),
            forall|j: int|
                0 <= j < f.len() ==> #[trigger] triggers@[f[j] as int] == fired(before[f[j] as int], ev.now),
            gs.len() == k + 1,
            gs[0] == *old(g),
            gs[k as int] == *g,
            forall|j: int|
                0 <= j < k ==> #[trigger] pass_step(gs[j], gs[j + 1], before[f[j] as int], out@[j].1),
            forall|j: int|
                0 <= j < k ==> (alld[j] matches Err(x) ==> (#[trigger] out@[j]).1 == Err::<
                    usize,
                    HTMLSceneSpawnError,
                >(x)),
        decreases docs@.len(),
    {
        let i = firing_idx[k];
        let d = docs.remove(0);
        proof {
            assert(d == alld[k as int]);
            assert(docs@ =~= alld.subrange(k + 1, f.len() as int));
        }
        let ghost g0 = *g;
        let res = match d {
            Err(e) => Err(e),
            Ok(el) => swap_returned(g, types, fns, host, &triggers[i], &el),
        };
        proof {
            assert(triggers@[i as int] == fired(before[i as int], ev.now));
            assert(pass_step(g0, *g, before[i as int], res));
            if let Ok(n) = res {
                assert(n < g.nodes@.len());
            }
            gs = gs.push(*g);
        }
        let ghost out_before = out@;
        out.push((i, res));
        proof {
            assert forall|j: int| 0 <= j < k + 1 implies #[trigger] pass_step(
                gs[j],
                gs[j + 1],
                before[f[j] as int],
                out@[j].1,
            ) by {
                if j < k {
                    assert(out@[j] == out_before[j]);
                }
            }
        }
        k = k + 1;
    }
    proof {
        assert(alld.len() == k);
    }
    out
}

proof fn lemma_firing_bounds(ts: Seq<Trigger>, ev: PassEvents, k: int)
    requires
        0 <= k <= ts.len(),
        ts.len() <= usize::MAX,
    ensures
        forall|j: int| 0 <= j < firing(ts, ev, k).len() ==> firing(ts, ev, k)[j] < k,
        forall|a: int, b: int|
            0 <= a < b < firing(ts, ev, k).len() ==> firing(ts, ev, k)[a] < firing(ts, ev, k)[b],
    decreases k,
{
    if k > 0 {
        lemma_firing_bounds(ts, ev, k - 1);
        let p = firing(ts, ev, k - 1);
        if fires(ts[k - 1], ev) {
            assert(firing(ts, ev, k) == p.push((k - 1) as usize));
            assert(((k - 1) as usize) as int == k - 1);
        }
    }
}

/// A unit variant, as an instance models it.
pub open spec fn unit_variant(name: Seq<char>) -> IView {
    IView::Variant(name, Box::new(IView::Unit))
}

/// A variant with one item, as an instance models it.
pub open spec fn one_item_variant(name: Seq<char>, item: IView) -> IView {
    IView::Variant(name, Box::new(IView::Items(seq![item])))
}

proof fn lemma_one_item_injective(a: Seq<char>, x: IView, b: Seq<char>, y: IView)
    ensures
        one_item_variant(a, x) == one_item_variant(b, y) ==> a == b && x == y,
{
    if one_item_variant(a, x) == one_item_variant(b, y) {
        assert(seq![x][0] == x);
        assert(seq![y][0] == y);
    }
}

/// The instance that stands for a swap mode.
pub open spec fn swap_model(s: XSwap) -> IView {
    match s {
        XSwap::Outer => unit_variant("Outer"@),
        XSwap::Inner => unit_variant("Inner"@),
        XSwap::Front => unit_variant("Front"@),
        XSwap::Back => unit_variant("Back"@),
    }
}

/// The instance that stands for a trigger kind.
pub open spec fn on_model(o: XOn) -> IView {
    match o {
        XOn::Create => unit_variant("Create"@),
        XOn::Update => unit_variant("Update"@),
        XOn::Fixed(d) => one_item_variant("Fixed"@, IView::Int(d as int)),
        XOn::Click => unit_variant("Click"@),
        XOn::Event(n) => one_item_variant("Event"@, IView::Text(n@)),
    }
}

/// The instance that stands for a target rule.
pub open spec fn target_model(t: XTarget) -> IView {
    match t {
        XTarget::This => unit_variant("This"@),
        XTarget::NextSibling => unit_variant("NextSibling"@),
        XTarget::PreviousSibling => unit_variant("PreviousSibling"@),
        XTarget::Root => unit_variant("Root"@),
        XTarget::Name(n) => one_item_variant("Name"@, IView::Text(n@)),
        XTarget::ChildName(n) => one_item_variant("ChildName"@, IView::Text(n@)),
        XTarget::Entity(e) => one_item_variant("Entity"@, IView::Int(e as int)),
    }
}

/// The instance that stands for a function name.
pub open spec fn function_model(f: XFunction) -> IView {
    IView::Items(seq![IView::Text(f.0@)])
}

/// Whether trigger `t` is the one that the facets of node `id` declare: an
/// `XFunction` facet, and `XOn`, `XSwap` and `XTarget` facets where present,
/// `Create`, `Outer` and `This` where absent.
pub open spec fn declared_trigger(m: Map<Seq<char>, IView>, id: usize, t: Trigger) -> bool {
    &&& t.node == id
    &&& t.last_fired == 0
    &&& m.contains_key("XFunction"@) && m["XFunction"@] == function_model(t.function)
    &&& if m.contains_key("XOn"@) {
        m["XOn"@] == on_model(t.on)
    } else {
        t.on == XOn::Create
    }
    &&& if m.contains_key("XSwap"@) {
        m["XSwap"@] == swap_model(t.swap)
    } else {
        t.swap == XSwap::Outer
    }
    &&& if m.contains_key("XTarget"@) {
        m["XTarget"@] == target_model(t.target)
    } else {
        t.target == XTarget::This
    }
}

fn name_is(s: &String, lit: &str) -> (r: bool)
    ensures
        r == (s@ == lit@),
{
    let t = String::from_str(lit);
    *s == t
}

/// The name and the one item of a one-item variant instance.
fn one_item(i: &Instance) -> (r: Option<(&String, &Instance)>)
    ensures
        match r {
            Some((n, x)) => i.model() == one_item_variant(n@, x.model()),
            None => forall|n: Seq<char>, x: IView| i.model() != one_item_variant(n, x),
        },
{
    proof {
        lemma_model_shape(*i);
    }
    match i {
        Instance::Variant(n, p) => match &**p {
            Instance::Items(v) => {
                proof {
                    lemma_model_shape(**p);
                    lemma_items_model_len(v@);
                }
                if v.len() == 1 {
                    proof {
                        assert(items_model(v@) =~= seq![v@[0].model()]);
                    }
                    Some((n, &v[0]))
                } else {
                    proof {
                        assert forall|n: Seq<char>, x: IView| i.model() != one_item_variant(n, x) by {
                            if items_model(v@) == seq![x] {
                                assert(items_model(v@).len() == 1);
                            }
                        }
                    }
                    None
                }
            },
            _ => {
                proof {
                    lemma_model_shape(**p);
                }
                None
            },
        },
        _ => None,
    }
}

/// Whether `i` is the unit variant `name`.
fn is_unit_variant(i: &Instance, name: &str) -> (r: bool)
    ensures
        r == (i.model() == unit_variant(name@)),
{
    proof {
        lemma_model_shape(*i);
    }
    match i {
        Instance::Variant(n, p) => {
            proof {
                lemma_model_shape(**p);
            }
            match &**p {
                Instance::Unit => name_is(n, name),
                _ => false,
            }
        },
        _ => false,
    }
}

fn swap_from(i: &Instance) -> (r: Option<XSwap>)
    ensures
        match r {
            Some(s) => swap_model(s) == i.model(),
            None => forall|s: XSwap| swap_model(s) != i.model(),
        },
{
    proof {
        reveal_strlit("Outer");
        reveal_strlit("Inner");
        reveal_strlit("Front");
        reveal_strlit("Back");
    }
    if is_unit_variant(i, "Outer") {
        Some(XSwap::Outer)
    } else if is_unit_variant(i, "Inner") {
        Some(XSwap::Inner)
    } else if is_unit_variant(i, "Front") {
        Some(XSwap::Front)
    } else if is_unit_variant(i, "Back") {
        Some(XSwap::Back)
    } else {
        None
    }
}

fn on_from(i: &Instance) -> (r: Option<XOn>)
    ensures
        match r {
            Some(o) => on_model(o) == i.model(),
            None => forall|o: XOn| on_model(o) != i.model(),
        },
{
    proof {
        reveal_strlit("Create");
        reveal_strlit("Update");
        reveal_strlit("Click");
        reveal_strlit("Fixed");
        reveal_strlit("Event");
    }
    if is_unit_variant(i, "Create") {
        return Some(XOn::Create);
    }
    if is_unit_variant(i, "Update") {
        return Some(XOn::Update);
    }
    if is_unit_variant(i, "Click") {
        return Some(XOn::Click);
    }
    match one_item(i) {
        Some((n, x)) => {
            if name_is(n, "Fixed") {
                if let Instance::Int(d) = x {
                    if *d >= 0 {
                        return Some(XOn::Fixed(*d as u64));
                    }
                }
            } else if name_is(n, "Event") {
                if let Instance::Text(t) = x {
                    return Some(XOn::Event(t.clone()));
                }
            }
            proof {
                lemma_model_shape(*x);
                assert forall|o: XOn| on_model(o) != i.model() by {
                    match o {
                        XOn::Fixed(d) => {
                            if on_model(o) == i.model() {
                                lemma_one_item_injective(n@, x.model(), "Fixed"@, IView::Int(d as int));
                                assert(x.model() == IView::Int(d as int));
                                assert(x->Int_0 as int == d as int);
                            }
                            assert(on_model(o) != i.model());
                        },
                        XOn::Event(e) => {
                            if on_model(o) == i.model() {
                                lemma_one_item_injective(n@, x.model(), "Event"@, IView::Text(e@));
                                assert(x.model() == IView::Text(e@));
                                assert("Event"@[0] != "Fixed"@[0]);
                            }
                            assert(on_model(o) != i.model());
                        },
                        _ => {
                            assert(on_model(o)->Variant_1 == Box::new(IView::Unit));
                            assert(on_model(o) != i.model());
                        },
                    }
                }
            }
            None
        },
        None => None,
    }
}

fn target_from(i: &Instance) -> (r: Option<XTarget>)
    ensures
        match r {
            Some(t) => target_model(t) == i.model(),
            None => forall|t: XTarget| target_model(t) != i.model(),
        },
{
    proof {
        reveal_strlit("This");
        reveal_strlit("NextSibling");
        reveal_strlit("PreviousSibling");
        reveal_strlit("Root");
        reveal_strlit("Name");
        reveal_strlit("ChildName");
        reveal_strlit("Entity");
    }
    if is_unit_variant(i, "This") {
        return Some(XTarget::This);
    }
    if is_unit_variant(i, "NextSibling") {
        return Some(XTarget::NextSibling);
    }
    if is_unit_variant(i, "PreviousSibling") {
        return Some(XTarget::PreviousSibling);
    }
    if is_unit_variant(i, "Root") {
        return Some(XTarget::Root);
    }
    match one_item(i) {
        Some((n, x)) => {
            if name_is(n, "Name") {
                if let Instance::Text(t) = x {
                    return Some(XTarget::Name(t.clone()));
                }
            } else if name_is(n, "ChildName") {
                if let Instance::Text(t) = x {
                    return Some(XTarget::ChildName(t.clone()));
                }
            } else if name_is(n, "Entity") {
                if let Instance::Int(e) = x {
                    if *e >= 0 {
                        return Some(XTarget::Entity(*e as u64));
                    }
                }
            }
            proof {
                lemma_model_shape(*x);
                assert forall|t: XTarget| target_model(t) != i.model() by {
                    match t {
                        XTarget::Name(m) => {
                            if target_model(t) == i.model() {
                                lemma_one_item_injective(n@, x.model(), "Name"@, IView::Text(m@));
                                assert(x.model() == IView::Text(m@));
                            }
                        },
                        XTarget::ChildName(m) => {
                            if target_model(t) == i.model() {
                                lemma_one_item_injective(n@, x.model(), "ChildName"@, IView::Text(m@));
                                assert(x.model() == IView::Text(m@));
                                assert("ChildName"@.len() != "Name"@.len());
                            }
                        },
                        XTarget::Entity(e) => {
                            if target_model(t) == i.model() {
                                lemma_one_item_injective(n@, x.model(), "Entity"@, IView::Int(e as int));
                                assert(x.model() == IView::Int(e as int));
                                assert(x->Int_0 as int == e as int);
                                assert("Entity"@.len() != "Name"@.len());
                                assert("Entity"@.len() != "ChildName"@.len());
                            }
                        },
                        _ => {
                            assert(target_model(t)->Variant_1 == Box::new(IView::Unit));
                        },
                    }
                }
            }
            None
        },
        None => None,
    }
}

fn function_from(i: &Instance) -> (r: Option<XFunction>)
    ensures
        match r {
            Some(f) => function_model(f) == i.model(),
            None => forall|f: XFunction| function_model(f) != i.model(),
        },
{
    proof {
        lemma_model_shape(*i);
    }
    match i {
        Instance::Items(v) => {
            proof {
                lemma_items_model_len(v@);
            }
            if v.len() == 1 {
                proof {
                    lemma_model_shape(v@[0]);
                }
                if let Instance::Text(t) = &v[0] {
                    proof {
                        assert(items_model(v@) =~= seq![IView::Text(t@)]);
                    }
                    return Some(XFunction(t.clone()));
                }
            }
            proof {
                assert forall|f: XFunction| function_model(f) != i.model() by {
                    if function_model(f) == i.model() {
                        assert(items_model(v@).len() == 1);
                        assert(items_model(v@)[0] == v@[0].model());
                    }
                }
            }
            None
        },
        _ => None,
    }
}

/// The facet of type `ty` of a facet list: the last one of that type.
fn find_facet<'a>(fs: &'a Vec<Facet>, ty: &str) -> (r: Option<&'a Instance>)
    ensures
        match r {
            Some(i) => facet_map(fs@).contains_key(ty@) && facet_map(fs@)[ty@] == i.model(),
            None => !facet_map(fs@).contains_key(ty@),
        },
{
    let name = String::from_str(ty);
    let mut k = fs.len();
    proof {
        assert(fs@.subrange(0, fs@.len() as int) =~= fs@);
    }
    while k > 0
        invariant
            k <= fs@.len(),
            name@ == ty@,
            forall|j: int| k <= j < fs@.len() ==> (#[trigger] fs@[j]).ty@ != ty@,
            facet_map(fs@).contains_key(ty@) == facet_map(fs@.subrange(0, k as int)).contains_key(ty@),
            facet_map(fs@.subrange(0, k as int)).contains_key(ty@) ==> facet_map(fs@)[ty@]
                == facet_map(fs@.subrange(0, k as int))[ty@],
        decreases k,
    {
        proof {
            assert(fs@.subrange(0, k as int).drop_last() =~= fs@.subrange(0, k - 1));
        }
        if fs[k - 1].ty == name {
            return Some(&fs[k - 1].value);
        }
        k = k - 1;
    }
    None
}

/// The trigger that the facets of node `id` declare, if they declare one.
pub fn trigger_of(g: &Graph, id: usize) -> (r: Option<Trigger>)
    requires
        id < g.nodes@.len(),
    ensures
        match r {
            Some(t) => declared_trigger(g.facets_of(id as int), id, t),
            None => forall|t: Trigger| !declared_trigger(g.facets_of(id as int), id, t),
        },
{
    let fs = &g.nodes[id].facets;
    let function = match find_facet(fs, "XFunction") {
        None => {
            return None;
        },
        Some(i) => match function_from(i) {
            None => {
                return None;
            },
            Some(f) => f,
        },
    };
    let on = match find_facet(fs, "XOn") {
        None => XOn::Create,
        Some(i) => match on_from(i) {
            None => {
                return None;
            },
            Some(o) => o,
        },
    };
    let swap = match find_facet(fs, "XSwap") {
        None => XSwap::Outer,
        Some(i) => match swap_from(i) {
            None => {
                return None;
            },
            Some(s) => s,
        },
    };
    let target = match find_facet(fs, "XTarget") {
        None => XTarget::This,
        Some(i) => match target_from(i) {
            None => {
                return None;
            },
            Some(t) => t,
        },
    };
    Some(Trigger { node: id, function, on, swap, target, last_fired: 0 })
}

/// The triggers that the nodes of the graph declare, in the order of the nodes.
pub fn triggers_of(g: &Graph) -> (r: Vec<Trigger>)
    ensures
        forall|k: int|
            0 <= k < r@.len() ==> (#[trigger] r@[k]).node < g.nodes@.len() && declared_trigger(
                g.facets_of(r@[k].node as int),
                r@[k].node,
                r@[k],
            ),
        forall|a: int, b: int| 0 <= a < b < r@.len() ==> r@[a].node < r@[b].node,
        forall|id: usize, t: Trigger|
            id < g.nodes@.len() && declared_trigger(g.facets_of(id as int), id, t) ==> exists|k: int|
                0 <= k < r@.len() && (#[trigger] r@[k]).node == id,
{
    let mut out: Vec<Trigger> = Vec::new();
    let mut id: usize = 0;
    while id < g.nodes.len()
        invariant
            id <= g.nodes@.len(),
            forall|k: int|
                0 <= k < out@.len() ==> (#[trigger] out@[k]).node < id && declared_trigger(
                    g.facets_of(out@[k].node as int),
                    out@[k].node,
                    out@[k],
                ),
            forall|a: int, b: int| 0 <= a < b < out@.len() ==> out@[a].node < out@[b].node,
            forall|j: usize, t: Trigger|
                j < id && declared_trigger(g.facets_of(j as int), j, t) ==> exists|k: int|
                    0 <= k < out@.len() && (#[trigger] out@[k]).node == j,
        decreases g.nodes@.len() - id,
    {
        match trigger_of(g, id) {
            Some(t) => {
                let ghost before = out@;
                out.push(t);
                proof {
                    assert forall|j: usize, u: Trigger|
                        j < id + 1 && declared_trigger(g.facets_of(j as int), j, u) implies exists|k: int|
                            0 <= k < out@.len() && (#[trigger] out@[k]).node == j by {
                        if j == id {
                            assert(out@[before.len() as int].node == j);
                        } else {
                            let k = choose|k: int| 0 <= k < before.len() && (#[trigger] before[k]).node == j;
                            assert(out@[k].node == j);
                        }
                    }
                }
            },
            None => {},
        }
        id = id + 1;
    }
    out
}

fn s_of(x: &str) -> (r: String)
    ensures
        r@ == x@,
{
    String::from_str(x)
}

fn unit_case(name: &str) -> (r: Variant)
    ensures
        r.name@ == name@,
        r.kind is Unit,
{
    Variant { name: s_of(name), kind: VariantKind::Unit }
}

fn one_case(name: &str, ty: &str) -> (r: Variant)
    ensures
        r.name@ == name@,
        r.kind is Tuple && r.kind->Tuple_0@.len() == 1 && r.kind->Tuple_0@[0]@ == ty@,
{
    let mut tys: Vec<String> = Vec::new();
    tys.push(s_of(ty));
    Variant { name: s_of(name), kind: VariantKind::Tuple(tys) }
}

fn enum_type(name: &str, vars: Vec<Variant>, default: Option<Instance>) -> (r: TypeDescriptor)
    ensures
        r.name@ == name@,
        r.shape == Shape::Enum(vars),
        r.default == default,
        r.parser is None,
        r.template is None,
{
    TypeDescriptor { name: s_of(name), shape: Shape::Enum(vars), default, parser: None, template: None }
}

fn unit_instance(name: &str) -> (r: Instance)
    ensures
        r.model() == unit_variant(name@),
{
    let r = Instance::Variant(s_of(name), Box::new(Instance::Unit));
    proof {
        lemma_model_shape(r);
        lemma_model_shape(Instance::Unit);
    }
    r
}

/// The names of the types that the trigger facets use.
pub open spec fn trigger_type_names() -> Seq<Seq<char>> {
    seq!["String"@, "u64"@, "XFunction"@, "XOn"@, "XSwap"@, "XTarget"@]
}

/// Registers the types of the trigger facets.
pub struct XPlugin;

impl XPlugin {
    /// Registers `String` and `u64` leaves, the tuple `XFunction(String)`, the
    /// enum `XOn` without a default, and the enums `XSwap` and `XTarget` with the
    /// defaults `Outer` and `This`.
    pub fn build(&self, types: &mut TypeRegistry)
        ensures
            final(types).types@.len() == old(types).types@.len() + 6,
            final(types).types@.subrange(0, old(types).types@.len() as int) == old(types).types@,
            forall|k: int|
                0 <= k < 6 ==> (#[trigger] final(types).types@[old(types).types@.len() + k]).name@
                    == trigger_type_names()[k],
            final(types).types@[old(types).types@.len() + 4int].default->0.model() == unit_variant(
                "Outer"@,
            ),
            final(types).types@[old(types).types@.len() + 5int].default->0.model() == unit_variant(
                "This"@,
            ),
            final(types).types@[old(types).types@.len() + 3int].default is None,
    {
        let ghost n = types.types@.len();
        types.register(
            TypeDescriptor {
                name: s_of("String"),
                shape: Shape::Value,
                default: None,
                parser: Some(LeafParser::Text),
                template: None,
            },
        );
        types.register(
            TypeDescriptor {
                name: s_of("u64"),
                shape: Shape::Value,
                default: None,
                parser: Some(LeafParser::Int),
                template: None,
            },
        );
        let mut fty: Vec<String> = Vec::new();
        fty.push(s_of("String"));
        types.register(
            TypeDescriptor {
                name: s_of("XFunction"),
                shape: Shape::TupleLike(fty),
                default: None,
                parser: None,
                template: None,
            },
        );
        let mut on: Vec<Variant> = Vec::new();
        on.push(unit_case("Create"));
        on.push(unit_case("Update"));
        on.push(one_case("Fixed", "u64"));
        on.push(unit_case("Click"));
        on.push(one_case("Event", "String"));
        types.register(enum_type("XOn", on, None));
        let mut swap: Vec<Variant> = Vec::new();
        swap.push(unit_case("Outer"));
        swap.push(unit_case("Inner"));
        swap.push(unit_case("Front"));
        swap.push(unit_case("Back"));
        types.register(enum_type("XSwap", swap, Some(unit_instance("Outer"))));
        let mut target: Vec<Variant> = Vec::new();
        target.push(unit_case("This"));
        target.push(unit_case("NextSibling"));
        target.push(unit_case("PreviousSibling"));
        target.push(unit_case("Root"));
        target.push(one_case("Name", "String"));
        target.push(one_case("ChildName", "String"));
        target.push(one_case("Entity", "u64"));
        types.register(enum_type("XTarget", target, Some(unit_instance("This"))));
        proof {
            assert(types.types@.subrange(0, n as int) =~= old(types).types@);
            assert forall|k: int| 0 <= k < 6 implies (#[trigger] types.types@[n + k]).name@
                == trigger_type_names()[k] by {
                if k == 0 {
                } else if k == 1 {
                } else if k == 2 {
                } else if k == 3 {
                } else if k == 4 {
                } else {
                }
            }
        }
    }
}

} // verus!
