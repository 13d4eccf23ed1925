use vstd::multiset::Multiset;
use vstd::prelude::*;

use crate::coordinator::{
    add_dep, add_deps, attach, integrated, lemma_push_contains, new_node, BuildResultView, BuildState, Coordinator, ResolvedDepView,
    TaskView,
};
use crate::graph::{has_id, ids_unique, index_of, EdgeView};
use crate::module::{AstView, InfoView, ModuleView};

verus! {

/// The build state with every order forgotten: nodes by identifier, edges as a
/// multiset, queued tasks and paths in flight as sets.
pub struct GraphModel {
    pub nodes: Map<Seq<char>, ModuleView>,
    pub edges: Multiset<EdgeView>,
    pub queue: Set<TaskView>,
    pub in_flight: Set<Seq<char>>,
}

pub open spec fn node_map(ms: Seq<ModuleView>) -> Map<Seq<char>, ModuleView> {
    Map::new(|id: Seq<char>| has_id(ms, id), |id: Seq<char>| ms[index_of(ms, id)])
}

pub open spec fn model(s: BuildState) -> GraphModel {
    GraphModel {
        nodes: node_map(s.modules),
        edges: s.edges.to_multiset(),
        queue: Set::new(|t: TaskView| s.queue.contains(t)),
        in_flight: Set::new(|p: Seq<char>| s.in_flight.contains(p)),
    }
}

pub open spec fn m_add_dep(a: GraphModel, from: Seq<char>, d: ResolvedDepView) -> GraphModel {
    let e = EdgeView { from, to: d.target, dependency: d.dependency };
    if a.nodes.contains_key(d.target) {
        GraphModel { edges: a.edges.insert(e), ..a }
    } else {
        GraphModel {
            nodes: a.nodes.insert(d.target, new_node(d)),
            edges: a.edges.insert(e),
            queue: if d.external is None {
                a.queue.insert(TaskView { path: d.target, is_entry: false })
            } else {
                a.queue
            },
            in_flight: a.in_flight,
        }
    }
}

pub open spec fn m_add_deps(a: GraphModel, from: Seq<char>, ds: Seq<ResolvedDepView>) -> GraphModel
    decreases ds.len(),
{
    if ds.len() == 0 {
        a
    } else {
        m_add_dep(m_add_deps(a, from, ds.drop_last()), from, ds.last())
    }
}

pub open spec fn m_attach(a: GraphModel, path: Seq<char>, ast: AstView) -> GraphModel {
    GraphModel {
        nodes: a.nodes.insert(path, ModuleView { info: Some(InfoView { ast, path, external: None }), ..a.nodes[path] }),
        in_flight: a.in_flight.remove(path),
        ..a
    }
}

pub open spec fn m_integrated(a: GraphModel, r: BuildResultView) -> GraphModel {
    m_add_deps(m_attach(a, r.path, r.ast), r.path, r.deps)
}

/// Two lists of dependencies never disagree on whether a target is external, nor
/// on the global it binds to.
pub open spec fn agree_on_externals(ds1: Seq<ResolvedDepView>, ds2: Seq<ResolvedDepView>) -> bool {
    forall|i: int, j: int|
        0 <= i < ds1.len() && 0 <= j < ds2.len() && (#[trigger] ds1[i]).target == (#[trigger] ds2[j]).target
            ==> ds1[i].external == ds2[j].external
}

proof fn lemma_index_of_unique(ms: Seq<ModuleView>, i: int)
    requires
        ids_unique(ms),
        0 <= i < ms.len(),
    ensures
        has_id(ms, ms[i].id),
        index_of(ms, ms[i].id) == i,
{
    assert(ms[i].id == ms[i].id);
    let c = index_of(ms, ms[i].id);
    assert(0 <= c < ms.len() && ms[c].id == ms[i].id);
}

proof fn lemma_node_map_push(ms: Seq<ModuleView>, m: ModuleView)
    requires
        ids_unique(ms),
        !has_id(ms, m.id),
    ensures
        ids_unique(ms.push(m)),
        node_map(ms.push(m)) =~= node_map(ms).insert(m.id, m),
        forall|id: Seq<char>| #[trigger] has_id(ms.push(m), id) <==> has_id(ms, id) || id == m.id,
{
    let n = ms.push(m);
    assert forall|i: int, j: int| 0 <= i < n.len() && 0 <= j < n.len() && i != j implies #[trigger] n[i].id != #[trigger] n[j].id by {
        if i == ms.len() {
            assert(ms[j].id == n[j].id);
        } else if j == ms.len() {
            assert(ms[i].id == n[i].id);
        } else {
            assert(ms[i] == n[i] && ms[j] == n[j]);
        }
    }
    assert forall|id: Seq<char>| #[trigger] has_id(n, id) <==> has_id(ms, id) || id == m.id by {
        if has_id(ms, id) {
            let i = choose|i: int| 0 <= i < ms.len() && #[trigger] ms[i].id == id;
            assert(n[i] == ms[i]);
        }
        if id == m.id {
            assert(n[ms.len() as int].id == id);
        }
        if has_id(n, id) {
            let i = choose|i: int| 0 <= i < n.len() && #[trigger] n[i].id == id;
            if i < ms.len() {
                assert(ms[i] == n[i]);
            }
        }
    }
    assert forall|id: Seq<char>| #[trigger] has_id(n, id) implies node_map(n)[id] == node_map(ms).insert(m.id, m)[id] by {
        let i = choose|i: int| 0 <= i < n.len() && #[trigger] n[i].id == id;
        lemma_index_of_unique(n, i);
        if i < ms.len() {
            assert(ms[i] == n[i]);
            lemma_index_of_unique(ms, i);
        }
    }
}

proof fn lemma_node_map_update(ms: Seq<ModuleView>, j: int, m: ModuleView)
    requires
        ids_unique(ms),
        0 <= j < ms.len(),
        m.id == ms[j].id,
    ensures
        ids_unique(ms.update(j, m)),
        node_map(ms.update(j, m)) =~= node_map(ms).insert(m.id, m),
        forall|id: Seq<char>| #[trigger] has_id(ms.update(j, m), id) <==> has_id(ms, id),
{
    let n = ms.update(j, m);
    assert forall|i: int| 0 <= i < n.len() implies #[trigger] n[i].id == ms[i].id by {}
    assert forall|id: Seq<char>| #[trigger] has_id(n, id) <==> has_id(ms, id) by {
        if has_id(ms, id) {
            let i = choose|i: int| 0 <= i < ms.len() && #[trigger] ms[i].id == id;
            assert(n[i].id == id);
        }
        if has_id(n, id) {
            let i = choose|i: int| 0 <= i < n.len() && #[trigger] n[i].id == id;
            assert(ms[i].id == id);
        }
    }
    assert(ids_unique(n)) by {
        assert forall|a: int, b: int| 0 <= a < n.len() && 0 <= b < n.len() && a != b implies #[trigger] n[a].id != #[trigger] n[b].id by {
            assert(n[a].id == ms[a].id && n[b].id == ms[b].id);
        }
    }
    assert forall|id: Seq<char>| #[trigger] has_id(n, id) implies node_map(n)[id] == node_map(ms).insert(m.id, m)[id] by {
        let i = choose|i: int| 0 <= i < n.len() && #[trigger] n[i].id == id;
        lemma_index_of_unique(n, i);
        lemma_index_of_unique(ms, i);
    }
}

/// One dependency step, seen through the model.
proof fn lemma_refine_dep(s: BuildState, from: Seq<char>, d: ResolvedDepView)
    requires
        ids_unique(s.modules),
    ensures
        ids_unique(add_dep(s, from, d).modules),
        add_dep(s, from, d).in_flight == s.in_flight,
        forall|id: Seq<char>| has_id(s.modules, id) ==> #[trigger] has_id(add_dep(s, from, d).modules, id),
        model(add_dep(s, from, d)) == m_add_dep(model(s), from, d),
{
    let n = add_dep(s, from, d);
    let e = EdgeView { from, to: d.target, dependency: d.dependency };
    vstd::seq_lib::to_multiset_build(s.edges, e);
    if !has_id(s.modules, d.target) {
        lemma_node_map_push(s.modules, new_node(d));
        if d.external is None {
            assert forall|t: TaskView| #[trigger] n.queue.contains(t) <==> s.queue.contains(t) || t == (TaskView { path: d.target, is_entry: false }) by {
                lemma_push_contains(s.queue, TaskView { path: d.target, is_entry: false }, t);
            }
        }
    }
    assert(model(n).queue =~= m_add_dep(model(s), from, d).queue);
    assert(model(n).in_flight =~= m_add_dep(model(s), from, d).in_flight);
    assert(model(n).nodes =~= m_add_dep(model(s), from, d).nodes);
    assert(model(n).edges =~= m_add_dep(model(s), from, d).edges);
}

proof fn lemma_refine_deps(s: BuildState, from: Seq<char>, ds: Seq<ResolvedDepView>)
    requires
        ids_unique(s.modules),
    ensures
        ids_unique(add_deps(s, from, ds).modules),
        add_deps(s, from, ds).in_flight == s.in_flight,
        forall|id: Seq<char>| has_id(s.modules, id) ==> #[trigger] has_id(add_deps(s, from, ds).modules, id),
        model(add_deps(s, from, ds)) == m_add_deps(model(s), from, ds),
    decreases ds.len(),
{
    if ds.len() > 0 {
        lemma_refine_deps(s, from, ds.drop_last());
        lemma_refine_dep(add_deps(s, from, ds.drop_last()), from, ds.last());
    }
}

/// Integrating one result, seen through the model.
proof fn lemma_refine_integrated(s: BuildState, r: BuildResultView)
    requires
        ids_unique(s.modules),
        s.in_flight.no_duplicates(),
        s.in_flight.contains(r.path),
        has_id(s.modules, r.path),
    ensures
        ids_unique(integrated(s, r).modules),
        integrated(s, r).in_flight.no_duplicates(),
        forall|p: Seq<char>| #[trigger] integrated(s, r).in_flight.contains(p) <==> s.in_flight.contains(p) && p != r.path,
        forall|id: Seq<char>| has_id(s.modules, id) ==> #[trigger] has_id(integrated(s, r).modules, id),
        model(integrated(s, r)) == m_integrated(model(s), r),
{
    let a = attach(s, r.path, r.ast);
    let j = index_of(s.modules, r.path);
    let k = s.in_flight.index_of(r.path);
    assert(0 <= j < s.modules.len() && s.modules[j].id == r.path);
    assert(0 <= k < s.in_flight.len() && s.in_flight[k] == r.path);
    let m = ModuleView { info: Some(InfoView { ast: r.ast, path: r.path, external: None }), ..s.modules[j] };
    lemma_node_map_update(s.modules, j, m);
    lemma_index_of_unique(s.modules, j);
    let f = s.in_flight;
    let g = a.in_flight;
    assert forall|p: Seq<char>| #[trigger] g.contains(p) <==> f.contains(p) && p != r.path by {
        if f.contains(p) && p != r.path {
            let c = choose|c: int| 0 <= c < f.len() && f[c] == p;
            if c < k {
                assert(g[c] == p);
            } else {
                assert(g[c - 1] == p);
            }
        }
        if g.contains(p) {
            let c = choose|c: int| 0 <= c < g.len() && g[c] == p;
            if c < k {
                assert(f[c] == p);
            } else {
                assert(f[c + 1] == p);
            }
        }
    }
    assert(g.no_duplicates()) by {
        assert forall|x: int, y: int| 0 <= x < g.len() && 0 <= y < g.len() && x != y implies g[x] != g[y] by {
            let fx = if x < k { x } else { x + 1 };
            let fy = if y < k { y } else { y + 1 };
            assert(g[x] == f[fx] && g[y] == f[fy]);
        }
    }
    assert(model(a).nodes =~= m_attach(model(s), r.path, r.ast).nodes);
    assert(model(a).in_flight =~= m_attach(model(s), r.path, r.ast).in_flight);
    assert(model(a).queue =~= m_attach(model(s), r.path, r.ast).queue);
    assert(model(a) == m_attach(model(s), r.path, r.ast));
    lemma_refine_deps(a, r.path, r.deps);
}

proof fn lemma_dep_steps_commute(a: GraphModel, f1: Seq<char>, d1: ResolvedDepView, f2: Seq<char>, d2: ResolvedDepView)
    requires
        d1.target == d2.target ==> d1.external == d2.external,
    ensures
        m_add_dep(m_add_dep(a, f1, d1), f2, d2) == m_add_dep(m_add_dep(a, f2, d2), f1, d1),
{
    let x = m_add_dep(m_add_dep(a, f1, d1), f2, d2);
    let y = m_add_dep(m_add_dep(a, f2, d2), f1, d1);
    let e1 = EdgeView { from: f1, to: d1.target, dependency: d1.dependency };
    let e2 = EdgeView { from: f2, to: d2.target, dependency: d2.dependency };
    assert(a.edges.insert(e1).insert(e2) =~= a.edges.insert(e2).insert(e1));
    if d1.target == d2.target {
        assert(new_node(d1) == new_node(d2));
    }
    assert(x.nodes =~= y.nodes);
    assert(x.edges =~= y.edges);
    assert(x.queue =~= y.queue);
    assert(x.in_flight =~= y.in_flight);
}

proof fn lemma_dep_step_past_deps(a: GraphModel, f1: Seq<char>, ds: Seq<ResolvedDepView>, f2: Seq<char>, d: ResolvedDepView)
    requires
        forall|i: int| 0 <= i < ds.len() && (#[trigger] ds[i]).target == d.target ==> ds[i].external == d.external,
    ensures
        m_add_dep(m_add_deps(a, f1, ds), f2, d) == m_add_deps(m_add_dep(a, f2, d), f1, ds),
    decreases ds.len(),
{
    if ds.len() > 0 {
        let init = ds.drop_last();
        assert forall|i: int| 0 <= i < init.len() && (#[trigger] init[i]).target == d.target implies init[i].external
            == d.external by {
            assert(init[i] == ds[i]);
        }
        lemma_dep_step_past_deps(a, f1, init, f2, d);
        lemma_dep_steps_commute(m_add_deps(a, f1, init), f1, ds.last(), f2, d);
    }
}

proof fn lemma_deps_commute(a: GraphModel, f1: Seq<char>, ds1: Seq<ResolvedDepView>, f2: Seq<char>, ds2: Seq<ResolvedDepView>)
    requires
        agree_on_externals(ds1, ds2),
    ensures
        m_add_deps(m_add_deps(a, f1, ds1), f2, ds2) == m_add_deps(m_add_deps(a, f2, ds2), f1, ds1),
    decreases ds2.len(),
{
    if ds2.len() > 0 {
        let init = ds2.drop_last();
        let d = ds2.last();
        assert(agree_on_externals(ds1, init)) by {
            assert forall|i: int, j: int| 0 <= i < ds1.len() && 0 <= j < init.len() && (#[trigger] ds1[i]).target
                == (#[trigger] init[j]).target implies ds1[i].external == init[j].external by {
                assert(init[j] == ds2[j]);
            }
        }
        lemma_deps_commute(a, f1, ds1, f2, init);
        assert forall|i: int| 0 <= i < ds1.len() && (#[trigger] ds1[i]).target == d.target implies ds1[i].external
            == d.external by {
            assert(ds2[ds2.len() - 1] == d);
        }
        lemma_dep_step_past_deps(m_add_deps(a, f2, init), f1, ds1, f2, d);
    }
}

proof fn lemma_deps_keep_nodes(a: GraphModel, f: Seq<char>, ds: Seq<ResolvedDepView>, p: Seq<char>)
    requires
        a.nodes.contains_key(p),
    ensures
        m_add_deps(a, f, ds).nodes.contains_key(p),
    decreases ds.len(),
{
    if ds.len() > 0 {
        lemma_deps_keep_nodes(a, f, ds.drop_last(), p);
    }
}

proof fn lemma_attach_past_deps(a: GraphModel, f: Seq<char>, ds: Seq<ResolvedDepView>, p: Seq<char>, ast: AstView)
    requires
        a.nodes.contains_key(p),
    ensures
        m_attach(m_add_deps(a, f, ds), p, ast) == m_add_deps(m_attach(a, p, ast), f, ds),
    decreases ds.len(),
{
    if ds.len() > 0 {
        let init = ds.drop_last();
        let d = ds.last();
        lemma_attach_past_deps(a, f, init, p, ast);
        lemma_deps_keep_nodes(a, f, init, p);
        let b = m_add_deps(a, f, init);
        let x = m_attach(m_add_dep(b, f, d), p, ast);
        let y = m_add_dep(m_attach(b, p, ast), f, d);
        assert(m_attach(b, p, ast).nodes.contains_key(d.target) == b.nodes.contains_key(d.target));
        if d.target != p && !b.nodes.contains_key(d.target) {
            assert(b.nodes.insert(d.target, new_node(d))[p] == b.nodes[p]);
        }
        assert(x.nodes =~= y.nodes);
        assert(x.edges =~= y.edges);
        assert(x.queue =~= y.queue);
        assert(x.in_flight =~= y.in_flight);
    }
}

/// Two results that complete in either order leave the same graph: the same
/// node for each identifier, the same edges counted with repetition, the same
/// queued tasks and the same paths in flight. The results are for two different
/// paths in flight, and the resolver never answers differently for one target
/// (external or not, and to which global).
pub proof fn lemma_completion_order(c: &Coordinator, r1: BuildResultView, r2: BuildResultView)
    requires
        c.wf(),
        c.flight().contains(r1.path),
        c.flight().contains(r2.path),
        r1.path != r2.path,
        agree_on_externals(r1.deps, r2.deps),
    ensures
        model(integrated(integrated(c.state(), r1), r2)) == model(integrated(integrated(c.state(), r2), r1)),
{
    let s = c.state();
    assert forall|p: Seq<char>| #[trigger] s.in_flight.contains(p) implies has_id(s.modules, p) by {
        let k = choose|k: int| 0 <= k < s.in_flight.len() && s.in_flight[k] == p;
        assert(c.graph.has(c.flight()[k]));
    }
    lemma_refine_integrated(s, r1);
    lemma_refine_integrated(integrated(s, r1), r2);
    lemma_refine_integrated(s, r2);
    lemma_refine_integrated(integrated(s, r2), r1);
    let a = model(s);
    assert(a.nodes.contains_key(r1.path) && a.nodes.contains_key(r2.path));
    let a1 = m_attach(a, r1.path, r1.ast);
    let a2 = m_attach(a, r2.path, r2.ast);
    lemma_attach_past_deps(a1, r1.path, r1.deps, r2.path, r2.ast);
    lemma_attach_past_deps(a2, r2.path, r2.deps, r1.path, r1.ast);
    let b12 = m_attach(a1, r2.path, r2.ast);
    let b21 = m_attach(a2, r1.path, r1.ast);
    assert(b12.nodes =~= b21.nodes);
    assert(b12.in_flight =~= b21.in_flight);
    assert(b12 == b21);
    lemma_deps_commute(b12, r1.path, r1.deps, r2.path, r2.deps);
}

} // verus!
