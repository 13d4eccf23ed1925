use vstd::prelude::*;

use crate::assets::LoadError;
use crate::graph::{has_id, index_of, EdgeView, ModuleGraph};
use crate::module::{
    export_code, external_module, external_node, AstView, Dependency, DependencyView, InfoView, Module, ModuleAst,
    ModuleInfo, ModuleView,
};

verus! {

/// A module path waiting to be built.
#[derive(Debug)]
pub struct Task {
    pub path: String,
    pub is_entry: bool,
}

pub struct TaskView {
    pub path: Seq<char>,
    pub is_entry: bool,
}

impl View for Task {
    type V = TaskView;

    open spec fn view(&self) -> TaskView {
        TaskView { path: self.path@, is_entry: self.is_entry }
    }
}

/// One dependency of a built module: where it resolved, and the global it binds to
/// when it is external.
#[derive(Debug)]
pub struct ResolvedDep {
    pub target: String,
    pub external: Option<String>,
    pub dependency: Dependency,
}

pub struct ResolvedDepView {
    pub target: Seq<char>,
    pub external: Option<Seq<char>>,
    pub dependency: DependencyView,
}

impl View for ResolvedDep {
    type V = ResolvedDepView;

    open spec fn view(&self) -> ResolvedDepView {
        ResolvedDepView {
            target: self.target@,
            external: match self.external {
                Some(e) => Some(e@),
                None => None,
            },
            dependency: self.dependency@,
        }
    }
}

/// What the pipeline hands back for one task.
#[derive(Debug)]
pub struct BuildResult {
    pub task: Task,
    pub ast: ModuleAst,
    pub deps: Vec<ResolvedDep>,
}

pub struct BuildResultView {
    pub path: Seq<char>,
    pub ast: AstView,
    pub deps: Seq<ResolvedDepView>,
}

impl View for BuildResult {
    type V = BuildResultView;

    open spec fn view(&self) -> BuildResultView {
        BuildResultView { path: self.task.path@, ast: self.ast@, deps: self.deps@.map_values(|d: ResolvedDep| d@) }
    }
}

/// Why a build stopped.
#[derive(Debug)]
pub enum BuildError {
    EntryNotFound,
    Load(LoadError),
    Parse { path: String },
    Resolve { path: String, source: String },
    InternalChannelFailure,
    UnexpectedResult { path: String },
}

/// The coordinator's state, as sequences of plain values.
pub struct BuildState {
    pub modules: Seq<ModuleView>,
    pub edges: Seq<EdgeView>,
    pub queue: Seq<TaskView>,
    pub in_flight: Seq<Seq<char>>,
}

/// The node that the first sighting of a dependency creates.
pub open spec fn new_node(d: ResolvedDepView) -> ModuleView {
    match d.external {
        Some(n) => external_node(d.target, n),
        None => ModuleView { id: d.target, is_entry: false, info: None },
    }
}

/// Integrating one dependency of `from`: a first-seen target becomes a node (and,
/// unless external, a task); the edge is always added.
pub open spec fn add_dep(s: BuildState, from: Seq<char>, d: ResolvedDepView) -> BuildState {
    let e = EdgeView { from, to: d.target, dependency: d.dependency };
    if has_id(s.modules, d.target) {
        BuildState { edges: s.edges.push(e), ..s }
    } else {
        BuildState {
            modules: s.modules.push(new_node(d)),
            edges: s.edges.push(e),
            queue: if d.external is None {
                s.queue.push(TaskView { path: d.target, is_entry: false })
            } else {
                s.queue
            },
            in_flight: s.in_flight,
        }
    }
}

pub open spec fn add_deps(s: BuildState, from: Seq<char>, ds: Seq<ResolvedDepView>) -> BuildState
    decreases ds.len(),
{
    if ds.len() == 0 {
        s
    } else {
        add_dep(add_deps(s, from, ds.drop_last()), from, ds.last())
    }
}

/// Attaching the built tree to the placeholder of `path`, which is no longer in flight.
pub open spec fn attach(s: BuildState, path: Seq<char>, ast: AstView) -> BuildState {
    let j = index_of(s.modules, path);
    let k = s.in_flight.index_of(path);
    BuildState {
        modules: s.modules.update(
            j,
            ModuleView { info: Some(InfoView { ast, path, external: None }), ..s.modules[j] },
        ),
        in_flight: s.in_flight.remove(k),
        ..s
    }
}

/// The state after integrating the result `r`.
pub open spec fn integrated(s: BuildState, r: BuildResultView) -> BuildState {
    add_deps(attach(s, r.path, r.ast), r.path, r.deps)
}

/// `x` pushed onto `s` is contained exactly where it was, and at the end.
pub(crate) proof fn lemma_push_contains<A>(s: Seq<A>, x: A, y: A)
    ensures
        s.push(x).contains(y) <==> (s.contains(y) || y == x),
{
    if s.contains(y) {
        let k = choose|k: int| 0 <= k < s.len() && s[k] == y;
        assert(s.push(x)[k] == y);
    }
    if y == x {
        assert(s.push(x)[s.len() as int] == y);
    }
    if s.push(x).contains(y) {
        let k = choose|k: int| 0 <= k < s.push(x).len() && s.push(x)[k] == y;
        if k < s.len() {
            assert(s[k] == y);
        }
    }
}

/// What the build loop observed since the last step.
#[derive(Debug)]
pub enum Event {
    /// A pipeline run finished with this result.
    Built(BuildResult),
    /// No result was waiting.
    Idle,
    /// The channel of results closed.
    Disconnected,
    /// A pipeline run failed.
    Failed(BuildError),
}

/// What the build loop does next.
#[derive(Debug)]
pub enum Step {
    /// Spawn what `take_tasks` hands out, then wait for the next event.
    Continue,
    /// Nothing is queued or in flight: the graph is complete.
    Done,
    /// The build fails as a whole.
    Abort(BuildError),
}

/// Owns the module graph and decides, one event at a time, what is built next.
pub struct Coordinator {
    pub graph: ModuleGraph,
    pub queue: Vec<Task>,
    pub in_flight: Vec<String>,
    pub entries: Ghost<Set<Seq<char>>>,
}

impl Coordinator {
    pub open spec fn queue_paths(&self) -> Seq<Seq<char>> {
        self.queue@.map_values(|t: Task| t.path@)
    }

    pub open spec fn flight(&self) -> Seq<Seq<char>> {
        self.in_flight@.map_values(|s: String| s@)
    }

    pub open spec fn state(&self) -> BuildState {
        BuildState {
            modules: self.graph.nodes(),
            edges: self.graph.edge_list(),
            queue: self.queue@.map_values(|t: Task| t@),
            in_flight: self.flight(),
        }
    }

    /// Queued for a build, or being built.
    pub open spec fn pending(&self, id: Seq<char>) -> bool {
        self.queue_paths().contains(id) || self.flight().contains(id)
    }

    pub open spec fn wf(&self) -> bool {
        let ns = self.graph.nodes();
        &&& self.graph.wf()
        &&& forall|i: int| 0 <= i < ns.len() ==> (#[trigger] ns[i].info is None <==> self.pending(ns[i].id))
        &&& forall|k: int| 0 <= k < self.queue_paths().len() ==> self.graph.has(#[trigger] self.queue_paths()[k])
        &&& forall|k: int| 0 <= k < self.flight().len() ==> self.graph.has(#[trigger] self.flight()[k])
        &&& self.queue_paths().no_duplicates()
        &&& self.flight().no_duplicates()
        &&& forall|id: Seq<char>| !(#[trigger] self.queue_paths().contains(id) && self.flight().contains(id))
        &&& forall|i: int| 0 <= i < ns.len() ==> (#[trigger] ns[i].is_entry <==> self.entries@.contains(ns[i].id))
        &&& forall|id: Seq<char>| #[trigger] self.entries@.contains(id) ==> self.graph.has(id)
        &&& forall|i: int|
            0 <= i < ns.len() && (#[trigger] ns[i]).info is Some && ns[i].info->0.external is Some ==> ns[i]
                == external_node(ns[i].id, ns[i].info->0.external->0)
    }

    /// The state right after seeding with the entries `es`: one placeholder entry
    /// node and one task per distinct entry, nothing in flight, no edge.
    pub open spec fn seeded(&self, es: Seq<Seq<char>>) -> bool {
        let ns = self.graph.nodes();
        &&& forall|id: Seq<char>| #[trigger] self.entries@.contains(id) <==> es.contains(id)
        &&& forall|id: Seq<char>| #[trigger] self.graph.has(id) <==> es.contains(id)
        &&& forall|id: Seq<char>| #[trigger] self.queue_paths().contains(id) <==> es.contains(id)
        &&& forall|i: int| 0 <= i < ns.len() ==> (#[trigger] ns[i]).is_entry && ns[i].info is None
        &&& forall|k: int| 0 <= k < self.queue@.len() ==> (#[trigger] self.queue@[k]).is_entry
        &&& self.graph.edges@.len() == 0
        &&& self.in_flight@.len() == 0
    }

    /// Starts a build from the entry paths: each distinct entry gets a node, marked
    /// as an entry, and a task. The node stands from the start, so a module that
    /// imports an entry never schedules it a second time. No entry at all is an error.
    pub fn seed(entries: Vec<String>) -> (r: Result<Coordinator, BuildError>)
        ensures
            entries.len() == 0 ==> r == Err::<Coordinator, BuildError>(BuildError::EntryNotFound),
            entries.len() > 0 ==> (r matches Ok(c) && c.wf() && c.seeded(entries@.map_values(|s: String| s@))),
    {
        if entries.len() == 0 {
            return Err(BuildError::EntryNotFound);
        }
        let ghost es = entries@.map_values(|s: String| s@);
        let mut c = Coordinator {
            graph: ModuleGraph::new(),
            queue: Vec::new(),
            in_flight: Vec::new(),
            entries: Ghost(Set::empty()),
        };
        assert(c.queue_paths() =~= Seq::<Seq<char>>::empty());
        assert(c.flight() =~= Seq::<Seq<char>>::empty());
        assert(es.take(0) =~= Seq::<Seq<char>>::empty());
        assert(c.seeded(es.take(0)));
        let mut i: usize = 0;
        while i < entries.len()
            invariant
                i <= entries.len(),
                es == entries@.map_values(|s: String| s@),
                c.wf(),
                c.seeded(es.take(i as int)),
            decreases entries.len() - i,
        {
            let ghost c0 = c;
            let ghost e = entries@[i as int]@;
            let ghost prev = es.take(i as int);
            let ghost next = es.take(i as int + 1);
            assert(next =~= prev.push(e));
            if !c.graph.has_module(&entries[i]) {
                c.graph.add_module(Module { id: entries[i].clone(), is_entry: true, info: None });
                c.queue.push(Task { path: entries[i].clone(), is_entry: true });
                assert(c.queue_paths() =~= c0.queue_paths().push(e));
            }
            c.entries = Ghost(c.entries@.insert(e));
            proof {
                let ns0 = c0.graph.nodes();
                let ns = c.graph.nodes();
                assert forall|y: Seq<char>| #[trigger] next.contains(y) <==> (prev.contains(y) || y == e) by {
                    lemma_push_contains(prev, e, y);
                }
                if !c0.graph.has(e) {
                    assert(ns =~= ns0.push(ModuleView { id: e, is_entry: true, info: None }));
                    assert forall|y: Seq<char>| #[trigger] c.queue_paths().contains(y) <==> (c0.queue_paths().contains(y) || y == e) by {
                        lemma_push_contains(c0.queue_paths(), e, y);
                    }
                    assert forall|i: int| 0 <= i < ns.len() implies (#[trigger] ns[i]).is_entry && ns[i].info is None by {
                        if i < ns0.len() {
                            assert(ns[i] == ns0[i]);
                        }
                    }
                    assert forall|k: int| 0 <= k < c.queue@.len() implies (#[trigger] c.queue@[k]).is_entry by {
                        if k < c0.queue@.len() {
                            assert(c.queue@[k] == c0.queue@[k]);
                        }
                    }
                    assert(c.queue_paths().no_duplicates()) by {
                        assert forall|a: int, b: int| 0 <= a < c.queue_paths().len() && 0 <= b < c.queue_paths().len() && a != b implies c.queue_paths()[a] != c.queue_paths()[b] by {
                            let n = c0.queue_paths().len() as int;
                            if a == n {
                                assert(c0.queue_paths().contains(c.queue_paths()[b]));
                            } else if b == n {
                                assert(c0.queue_paths().contains(c.queue_paths()[a]));
                            }
                        }
                    }
                    assert forall|k: int| 0 <= k < c.queue_paths().len() implies c.graph.has(#[trigger] c.queue_paths()[k]) by {
                        assert(c.queue_paths().contains(c.queue_paths()[k]));
                    }
                } else {
                    assert(ns =~= ns0);
                    assert(c.queue_paths() =~= c0.queue_paths());
                }
                assert(c.seeded(next));
                assert(c.wf());
            }
            i = i + 1;
        }
        assert(es.take(entries.len() as int) =~= es);
        Ok(c)
    }

    /// Hands out every queued task; each one is in flight from now on.
    pub fn take_tasks(&mut self) -> (r: Vec<Task>)
        requires
            old(self).wf(),
        ensures
            final(self).wf(),
            final(self).entries == old(self).entries,
            final(self).graph == old(self).graph,
            r@ == old(self).queue@,
            final(self).queue@.len() == 0,
            final(self).flight() == old(self).flight() + old(self).queue_paths(),
    {
        let ghost c0 = *self;
        let mut tasks: Vec<Task> = Vec::new();
        std::mem::swap(&mut tasks, &mut self.queue);
        let ghost qp = c0.queue_paths();
        let mut i: usize = 0;
        while i < tasks.len()
            invariant
                i <= tasks.len(),
                tasks@ == c0.queue@,
                qp == c0.queue_paths(),
                self.queue@.len() == 0,
                self.graph == c0.graph,
                self.entries == c0.entries,
                self.flight() == c0.flight() + qp.take(i as int),
            decreases tasks.len() - i,
        {
            let p = tasks[i].path.clone();
            let ghost f = self.flight();
            self.in_flight.push(p);
            assert(self.flight() =~= f.push(qp[i as int]));
            assert(qp.take(i as int + 1) =~= qp.take(i as int).push(qp[i as int]));
            i = i + 1;
        }
        proof {
            assert(qp.take(tasks.len() as int) =~= qp);
            assert(self.queue_paths() =~= Seq::<Seq<char>>::empty());
            let f0 = c0.flight();
            let f = self.flight();
            assert forall|y: Seq<char>| #[trigger] f.contains(y) <==> (f0.contains(y) || qp.contains(y)) by {
                if f.contains(y) {
                    let c = choose|c: int| 0 <= c < f.len() && f[c] == y;
                    if c < f0.len() {
                        assert(f0[c] == y);
                    } else {
                        assert(qp[c - f0.len()] == y);
                    }
                }
                if f0.contains(y) {
                    let c = choose|c: int| 0 <= c < f0.len() && f0[c] == y;
                    assert(f[c] == y);
                }
                if qp.contains(y) {
                    let c = choose|c: int| 0 <= c < qp.len() && qp[c] == y;
                    assert(f[c + f0.len()] == y);
                }
            }
            assert forall|k: int| 0 <= k < f.len() implies self.graph.has(#[trigger] f[k]) by {
                if k < f0.len() {
                    assert(f[k] == f0[k]);
                    assert(c0.graph.has(f0[k]));
                } else {
                    assert(f[k] == qp[k - f0.len()]);
                    assert(c0.graph.has(qp[k - f0.len()]));
                }
            }
            assert(f.no_duplicates()) by {
                assert forall|a: int, b: int| 0 <= a < f.len() && 0 <= b < f.len() && a != b implies f[a] != f[b] by {
                    let n = f0.len() as int;
                    if a < n && b >= n {
                        assert(f0.contains(f[a]));
                        assert(qp.contains(f[b]) && qp[b - n] == f[b]);
                    } else if a >= n && b < n {
                        assert(f0.contains(f[b]));
                        assert(qp.contains(f[a]) && qp[a - n] == f[a]);
                    } else if a < n {
                        assert(f[a] == f0[a] && f[b] == f0[b]);
                    } else {
                        assert(f[a] == qp[a - n] && f[b] == qp[b - n]);
                    }
                }
            }
            assert(self.wf());
        }
        tasks
    }

    /// Integrates one dependency of the node `from`.
    fn add_resolved(&mut self, from: &String, d: &ResolvedDep)
        requires
            old(self).wf(),
            old(self).graph.has(from@),
        ensures
            final(self).wf(),
            final(self).entries == old(self).entries,
            final(self).in_flight == old(self).in_flight,
            final(self).graph.has(from@),
            final(self).state() == add_dep(old(self).state(), from@, d@),
    {
        let ghost s0 = self.state();
        let ghost old_self = *self;
        let ghost had = old_self.graph.has(d.target@);
        if !self.graph.has_module(&d.target) {
            match &d.external {
                Some(name) => {
                    let m = external_module(&d.target, name);
                    self.graph.add_module(m);
                    assert(self.queue_paths() =~= old_self.queue_paths());
                },
                None => {
                    self.graph.add_module(Module { id: d.target.clone(), is_entry: false, info: None });
                    self.queue.push(Task { path: d.target.clone(), is_entry: false });
                    assert(self.queue_paths() =~= old_self.queue_paths().push(d.target@));
                    assert(self.queue@.map_values(|t: Task| t@) =~= s0.queue.push(
                        TaskView { path: d.target@, is_entry: false },
                    ));
                },
            }
        }
        proof {
            let ns0 = old_self.graph.nodes();
            let ns = self.graph.nodes();
            let t = d.target@;
            if !had {
                assert(ns =~= ns0.push(new_node(d@)));
                assert(!old_self.pending(t)) by {
                    if old_self.queue_paths().contains(t) {
                        let k = choose|k: int| 0 <= k < old_self.queue_paths().len() && old_self.queue_paths()[k] == t;
                        assert(old_self.graph.has(old_self.queue_paths()[k]));
                    }
                    if old_self.flight().contains(t) {
                        let k = choose|k: int| 0 <= k < old_self.flight().len() && old_self.flight()[k] == t;
                        assert(old_self.graph.has(old_self.flight()[k]));
                    }
                }
                assert(!old_self.entries@.contains(t));
                assert forall|y: Seq<char>| #[trigger] self.queue_paths().contains(y) <==> (old_self.queue_paths().contains(y) || (y == t && d.external is None)) by {
                    if d.external is None {
                        lemma_push_contains(old_self.queue_paths(), t, y);
                    }
                }
                assert forall|i: int| 0 <= i < ns.len() implies (#[trigger] ns[i].info is None <==> self.pending(ns[i].id)) by {
                    if i < ns0.len() {
                        assert(ns[i] == ns0[i]);
                        assert(ns0[i].id != t);
                    }
                }
                assert forall|k: int| 0 <= k < self.queue_paths().len() implies self.graph.has(#[trigger] self.queue_paths()[k]) by {
                    if k < old_self.queue_paths().len() {
                        assert(self.queue_paths()[k] == old_self.queue_paths()[k]);
                        assert(old_self.graph.has(old_self.queue_paths()[k]));
                    } else {
                        assert(ns[ns0.len() as int].id == t);
                    }
                }
                assert forall|k: int| 0 <= k < self.flight().len() implies self.graph.has(#[trigger] self.flight()[k]) by {
                    assert(old_self.graph.has(old_self.flight()[k]));
                }
                assert(self.queue_paths().no_duplicates()) by {
                    if d.external is None {
                        assert forall|a: int, b: int| 0 <= a < self.queue_paths().len() && 0 <= b < self.queue_paths().len() && a != b implies self.queue_paths()[a] != self.queue_paths()[b] by {
                            let n = old_self.queue_paths().len() as int;
                            if a == n {
                                assert(old_self.queue_paths().contains(self.queue_paths()[b]));
                            } else if b == n {
                                assert(old_self.queue_paths().contains(self.queue_paths()[a]));
                            }
                        }
                    }
                }
                assert forall|i: int| 0 <= i < ns.len() implies (#[trigger] ns[i].is_entry <==> self.entries@.contains(ns[i].id)) by {
                    if i < ns0.len() {
                        assert(ns[i] == ns0[i]);
                    }
                }
                assert forall|i: int| 0 <= i < ns.len() && (#[trigger] ns[i]).info is Some && ns[i].info->0.external is Some implies ns[i] == external_node(ns[i].id, ns[i].info->0.external->0) by {
                    if i < ns0.len() {
                        assert(ns[i] == ns0[i]);
                    }
                }
            } else {
                assert(ns =~= ns0);
                assert(self.queue_paths() =~= old_self.queue_paths());
                assert(self.queue@.map_values(|t: Task| t@) =~= s0.queue);
            }
            assert(self.graph.has(from@));
            assert(self.graph.has(t));
            assert(self.wf());
        }
        assert(self.graph.edge_list() == s0.edges);
        let dep = d.dependency.duplicate();
        self.graph.add_dependency(from, &d.target, dep);
        proof {
            let a = add_dep(s0, from@, d@);
            assert(self.graph.nodes() =~= a.modules);
            let e = EdgeView { from: from@, to: d.target@, dependency: d.dependency@ };
            assert(a.edges == s0.edges.push(e));
            assert(self.graph.edge_list() == s0.edges.push(e));
            assert(self.queue@.map_values(|t: Task| t@) =~= a.queue);
            assert(self.flight() =~= a.in_flight);
        }
    }

    /// Integrates the result of a task that is in flight: the placeholder gets its
    /// tree, then each dependency is integrated in order. A result for a path that
    /// is not in flight changes nothing and is reported.
    pub fn integrate(&mut self, result: BuildResult) -> (r: Result<(), BuildError>)
        requires
            old(self).wf(),
        ensures
            final(self).wf(),
            final(self).entries == old(self).entries,
            old(self).flight().contains(result.task.path@) ==> r is Ok && final(self).state() == integrated(
                old(self).state(),
                result@,
            ),
            !old(self).flight().contains(result.task.path@) ==> r == Err::<(), BuildError>(
                BuildError::UnexpectedResult { path: result.task.path },
            ) && final(self).state() == old(self).state(),
    {
        let ghost s0 = self.state();
        let ghost rv = result@;
        let BuildResult { task, ast, deps } = result;
        let path = task.path;
        let k = match position(&self.in_flight, &path) {
            Some(k) => k,
            None => {
                return Err(BuildError::UnexpectedResult { path });
            },
        };
        assert(self.flight()[k as int] == path@);
        assert(self.graph.has(path@));
        let j = match self.graph.find(&path) {
            Some(j) => j,
            None => {
                return Err(BuildError::UnexpectedResult { path });
            },
        };
        let ghost old_self = *self;
        self.in_flight.remove(k);
        let info = ModuleInfo { ast, path: path.clone(), external: None };
        self.graph.add_info(j, info);
        proof {
            let ns0 = old_self.graph.nodes();
            let ns = self.graph.nodes();
            let f0 = old_self.flight();
            assert(self.flight() =~= f0.remove(k as int));
            assert(ns0[j as int].id == path@);
            assert(index_of(ns0, path@) == j) by {
                let c = index_of(ns0, path@);
                assert(0 <= c < ns0.len() && ns0[c].id == path@);
            }
            assert(f0.index_of(path@) == k) by {
                let c = f0.index_of(path@);
                assert(0 <= c < f0.len() && f0[c] == path@);
            }
            assert forall|y: Seq<char>| #[trigger] self.flight().contains(y) <==> (f0.contains(y) && y != path@) by {
                if f0.contains(y) && y != path@ {
                    let c = choose|c: int| 0 <= c < f0.len() && f0[c] == y;
                    if c < k {
                        assert(self.flight()[c] == y);
                    } else {
                        assert(c != k);
                        assert(self.flight()[c - 1] == y);
                    }
                }
                if self.flight().contains(y) {
                    let c = choose|c: int| 0 <= c < self.flight().len() && self.flight()[c] == y;
                    if c < k {
                        assert(f0[c] == y);
                        assert(c != k);
                    } else {
                        assert(f0[c + 1] == y);
                        assert(c + 1 != k);
                    }
                }
            }
            assert(!old_self.queue_paths().contains(path@));
            assert forall|i: int| 0 <= i < ns.len() implies (#[trigger] ns[i].info is None <==> self.pending(ns[i].id)) by {
                assert(ns[i].id == ns0[i].id);
                if i != j {
                    assert(ns[i] == ns0[i]);
                }
            }
            assert forall|c: int| 0 <= c < self.queue_paths().len() implies self.graph.has(#[trigger] self.queue_paths()[c]) by {
                assert(old_self.graph.has(old_self.queue_paths()[c]));
            }
            assert forall|c: int| 0 <= c < self.flight().len() implies self.graph.has(#[trigger] self.flight()[c]) by {
                if c < k {
                    assert(self.flight()[c] == f0[c]);
                    assert(old_self.graph.has(f0[c]));
                } else {
                    assert(self.flight()[c] == f0[c + 1]);
                    assert(old_self.graph.has(f0[c + 1]));
                }
            }
            assert forall|i: int| 0 <= i < ns.len() implies (#[trigger] ns[i].is_entry <==> self.entries@.contains(ns[i].id)) by {
                assert(ns[i].id == ns0[i].id && ns[i].is_entry == ns0[i].is_entry);
            }
            assert forall|i: int| 0 <= i < ns.len() && (#[trigger] ns[i]).info is Some && ns[i].info->0.external is Some implies ns[i] == external_node(ns[i].id, ns[i].info->0.external->0) by {
                if i != j {
                    assert(ns[i] == ns0[i]);
                }
            }
            assert(self.wf());
            let a = attach(s0, path@, ast@);
            assert(ns =~= a.modules);
            assert(self.queue@.map_values(|t: Task| t@) =~= a.queue);
        }
        let ghost s1 = self.state();
        let ghost dv = deps@.map_values(|d: ResolvedDep| d@);
        assert(s1 == attach(s0, path@, rv.ast));
        let mut i: usize = 0;
        while i < deps.len()
            invariant
                i <= deps.len(),
                dv == deps@.map_values(|d: ResolvedDep| d@),
                self.wf(),
                self.graph.has(path@),
                self.entries == old_self.entries,
                self.state() == add_deps(s1, path@, dv.take(i as int)),
            decreases deps.len() - i,
        {
            self.add_resolved(&path, &deps[i]);
            proof {
                let t = dv.take(i as int + 1);
                assert(t.drop_last() =~= dv.take(i as int));
                assert(t.last() == deps@[i as int]@);
            }
            i = i + 1;
        }
        assert(dv.take(deps.len() as int) =~= dv);
        Ok(())
    }

    /// Nothing is queued and nothing is in flight.
    pub open spec fn quiescent(&self) -> bool {
        self.queue@.len() == 0 && self.in_flight@.len() == 0
    }

    /// Every node carries its built info.
    pub open spec fn complete(&self) -> bool {
        forall|i: int| 0 <= i < self.graph.nodes().len() ==> (#[trigger] self.graph.nodes()[i]).info is Some
    }

    /// Decides the next step of the build loop from one event: a result is
    /// integrated, an idle poll ends the build once nothing is queued or in
    /// flight, and a closed channel or a failed run aborts it.
    pub fn handle(&mut self, event: Event) -> (r: Step)
        requires
            old(self).wf(),
        ensures
            final(self).wf(),
            final(self).entries == old(self).entries,
            r is Done ==> final(self).complete(),
            match event {
                Event::Built(res) => if old(self).flight().contains(res.task.path@) {
                    r is Continue && final(self).state() == integrated(old(self).state(), res@)
                } else {
                    r == Step::Abort(BuildError::UnexpectedResult { path: res.task.path }) && final(self).state()
                        == old(self).state()
                },
                Event::Idle => final(self).state() == old(self).state() && (r is Done <==> old(self).quiescent())
                    && (r is Done || r is Continue),
                Event::Disconnected => r == Step::Abort(BuildError::InternalChannelFailure) && final(self).state()
                    == old(self).state(),
                Event::Failed(e) => r == Step::Abort(e) && final(self).state() == old(self).state(),
            },
    {
        match event {
            Event::Built(res) => match self.integrate(res) {
                Ok(()) => Step::Continue,
                Err(e) => Step::Abort(e),
            },
            Event::Idle => {
                if self.queue.len() == 0 && self.in_flight.len() == 0 {
                    proof {
                        lemma_quiescent_complete(self);
                    }
                    Step::Done
                } else {
                    Step::Continue
                }
            },
            Event::Disconnected => Step::Abort(BuildError::InternalChannelFailure),
            Event::Failed(e) => Step::Abort(e),
        }
    }
}

/// Once nothing is queued or in flight, no placeholder is left: every node has
/// its info.
pub proof fn lemma_quiescent_complete(c: &Coordinator)
    requires
        c.wf(),
        c.quiescent(),
    ensures
        c.complete(),
{
    assert(c.queue_paths().len() == 0 && c.flight().len() == 0);
    assert forall|i: int| 0 <= i < c.graph.nodes().len() implies (#[trigger] c.graph.nodes()[i]).info is Some by {
        if c.graph.nodes()[i].info is None {
            assert(c.pending(c.graph.nodes()[i].id));
        }
    }
}

/// In every reachable state there is exactly one node per identifier.
pub proof fn lemma_one_node_per_id(c: &Coordinator, id: Seq<char>)
    requires
        c.wf(),
        c.graph.has(id),
    ensures
        forall|i: int, j: int|
            0 <= i < c.graph.nodes().len() && 0 <= j < c.graph.nodes().len() && #[trigger] c.graph.nodes()[i].id == id
                && #[trigger] c.graph.nodes()[j].id == id ==> i == j,
{
}

/// A node is marked as an entry exactly when its identifier was seeded as one.
pub proof fn lemma_entry_marking(c: &Coordinator, i: int)
    requires
        c.wf(),
        0 <= i < c.graph.nodes().len(),
    ensures
        c.graph.nodes()[i].is_entry <==> c.entries@.contains(c.graph.nodes()[i].id),
{
}

/// An external node is never queued or in flight, and its tree is exactly the
/// export wrapper of its binding.
pub proof fn lemma_external_synthesis(c: &Coordinator, i: int)
    requires
        c.wf(),
        0 <= i < c.graph.nodes().len(),
        c.graph.nodes()[i].info is Some,
        c.graph.nodes()[i].info->0.external is Some,
    ensures
        !c.pending(c.graph.nodes()[i].id),
        c.graph.nodes()[i].info->0.ast == AstView::Script(export_code(c.graph.nodes()[i].info->0.external->0)),
{
}

/// The position of `x` in `v`, if it occurs.
fn position(v: &Vec<String>, x: &String) -> (r: Option<usize>)
    ensures
        match r {
            Some(k) => k < v.len() && v@[k as int]@ == x@,
            None => !v@.map_values(|s: String| s@).contains(x@),
        },
{
    let mut k: usize = 0;
    while k < v.len()
        invariant
            k <= v.len(),
            forall|c: int| 0 <= c < k ==> v@[c]@ != x@,
        decreases v.len() - k,
    {
        if v[k] == *x {
            return Some(k);
        }
        k = k + 1;
    }
    proof {
        let vs = v@.map_values(|s: String| s@);
        if vs.contains(x@) {
            let c = choose|c: int| 0 <= c < vs.len() && #[trigger] vs[c] == x@;
            assert(v@[c]@ == x@);
        }
    }
    None
}

} // verus!
