use vstd::prelude::*;

use crate::module::{Dependency, DependencyView, Module, ModuleInfo, ModuleView};

verus! {

/// An edge: `from` imports `to` through `dependency`.
#[derive(Debug)]
pub struct Edge {
    pub from: String,
    pub to: String,
    pub dependency: Dependency,
}

pub struct EdgeView {
    pub from: Seq<char>,
    pub to: Seq<char>,
    pub dependency: DependencyView,
}

impl View for Edge {
    type V = EdgeView;

    open spec fn view(&self) -> EdgeView {
        EdgeView { from: self.from@, to: self.to@, dependency: self.dependency@ }
    }
}

/// Whether some node of `ms` has identifier `id`.
pub open spec fn has_id(ms: Seq<ModuleView>, id: Seq<char>) -> bool {
    exists|i: int| 0 <= i < ms.len() && #[trigger] ms[i].id == id
}

/// The position of the node with identifier `id`.
pub open spec fn index_of(ms: Seq<ModuleView>, id: Seq<char>) -> int {
    choose|i: int| 0 <= i < ms.len() && #[trigger] ms[i].id == id
}

/// No two nodes share an identifier.
pub open spec fn ids_unique(ms: Seq<ModuleView>) -> bool {
    forall|i: int, j: int| 0 <= i < ms.len() && 0 <= j < ms.len() && i != j ==> #[trigger] ms[i].id != #[trigger] ms[j].id
}

/// The directed graph of modules, with one node per identifier.
#[derive(Debug)]
pub struct ModuleGraph {
    pub modules: Vec<Module>,
    pub edges: Vec<Edge>,
}

impl ModuleGraph {
    pub open spec fn nodes(&self) -> Seq<ModuleView> {
        self.modules@.map_values(|m: Module| m@)
    }

    pub open spec fn edge_list(&self) -> Seq<EdgeView> {
        self.edges@.map_values(|e: Edge| e@)
    }

    pub open spec fn has(&self, id: Seq<char>) -> bool {
        has_id(self.nodes(), id)
    }

    /// Identifiers are unique and every edge joins two nodes.
    pub open spec fn wf(&self) -> bool {
        &&& ids_unique(self.nodes())
        &&& forall|k: int| 0 <= k < self.edges.len() ==> self.has(#[trigger] self.edges@[k].from@) && self.has(
            self.edges@[k].to@,
        )
    }

    pub fn new() -> (r: ModuleGraph)
        ensures
            r.wf(),
            r.nodes() == Seq::<ModuleView>::empty(),
            r.edge_list() == Seq::<EdgeView>::empty(),
            r.modules@.len() == 0,
            r.edges@.len() == 0,
    {
        let r = ModuleGraph { modules: Vec::new(), edges: Vec::new() };
        assert(r.nodes() =~= Seq::<ModuleView>::empty());
        assert(r.edge_list() =~= Seq::<EdgeView>::empty());
        r
    }

    /// The position of the node with identifier `id`, if there is one.
    pub fn find(&self, id: &String) -> (r: Option<usize>)
        ensures
            match r {
                Some(i) => i < self.modules.len() && self.modules@[i as int].id@ == id@,
                None => !self.has(id@),
            },
    {
        let mut i: usize = 0;
        while i < self.modules.len()
            invariant
                i <= self.modules.len(),
                forall|k: int| 0 <= k < i ==> self.modules@[k].id@ != id@,
            decreases self.modules.len() - i,
        {
            if self.modules[i].id == *id {
                return Some(i);
            }
            i = i + 1;
        }
        proof {
            assert forall|k: int| 0 <= k < self.nodes().len() implies #[trigger] self.nodes()[k].id != id@ by {
                assert(self.nodes()[k] == self.modules@[k]@);
            }
        }
        None
    }

    pub fn has_module(&self, id: &String) -> (r: bool)
        ensures
            r == self.has(id@),
    {
        match self.find(id) {
            Some(i) => {
                assert(self.nodes()[i as int].id == id@);
                true
            },
            None => false,
        }
    }

    /// Inserts a node whose identifier is new.
    pub fn add_module(&mut self, m: Module)
        requires
            old(self).wf(),
            !old(self).has(m.id@),
        ensures
            final(self).wf(),
            final(self).nodes() == old(self).nodes().push(m@),
            final(self).edges == old(self).edges,
            final(self).modules@.len() == old(self).modules@.len() + 1,
            forall|id: Seq<char>| #[trigger] final(self).has(id) <==> old(self).has(id) || id == m@.id,
    {
        let ghost before = self.nodes();
        let ghost mv = m@;
        self.modules.push(m);
        assert(self.nodes() =~= before.push(mv));
        assert forall|id: Seq<char>| has_id(before, id) implies has_id(self.nodes(), id) by {
            let i = choose|i: int| 0 <= i < before.len() && #[trigger] before[i].id == id;
            assert(self.nodes()[i] == before[i]);
        }
        assert(self.nodes()[before.len() as int] == mv);
        assert forall|id: Seq<char>| #[trigger] has_id(self.nodes(), id) implies has_id(before, id) || id == mv.id by {
            let i = choose|i: int| 0 <= i < self.nodes().len() && #[trigger] self.nodes()[i].id == id;
            if i < before.len() {
                assert(before[i] == self.nodes()[i]);
            }
        }
    }

    /// Adds an edge between two nodes; edges are never merged.
    pub fn add_dependency(&mut self, from: &String, to: &String, dependency: Dependency)
        requires
            old(self).wf(),
            old(self).has(from@),
            old(self).has(to@),
        ensures
            final(self).wf(),
            final(self).modules == old(self).modules,
            final(self).edge_list() == old(self).edge_list().push(
                EdgeView { from: from@, to: to@, dependency: dependency@ },
            ),
    {
        let ghost before = self.edge_list();
        let e = Edge { from: from.clone(), to: to.clone(), dependency };
        self.edges.push(e);
        assert(self.edge_list() =~= before.push(EdgeView { from: from@, to: to@, dependency: dependency@ }));
    }

    /// Attaches the built info to the node at position `i`.
    pub fn add_info(&mut self, i: usize, info: ModuleInfo)
        requires
            old(self).wf(),
            i < old(self).modules.len(),
        ensures
            final(self).wf(),
            final(self).nodes() == old(self).nodes().update(
                i as int,
                ModuleView { info: Some(info@), ..old(self).nodes()[i as int] },
            ),
            final(self).edges == old(self).edges,
            forall|id: Seq<char>| #[trigger] final(self).has(id) == old(self).has(id),
    {
        let ghost before = self.nodes();
        let m = Module { id: self.modules[i].id.clone(), is_entry: self.modules[i].is_entry, info: Some(info) };
        let ghost mv = m@;
        self.modules.set(i, m);
        assert(self.nodes() =~= before.update(i as int, mv));
        assert forall|id: Seq<char>| has_id(before, id) implies has_id(self.nodes(), id) by {
            let j = choose|j: int| 0 <= j < before.len() && #[trigger] before[j].id == id;
            assert(self.nodes()[j].id == before[j].id);
        }
        assert forall|id: Seq<char>| has_id(self.nodes(), id) implies has_id(before, id) by {
            let j = choose|j: int| 0 <= j < self.nodes().len() && #[trigger] self.nodes()[j].id == id;
            assert(self.nodes()[j].id == before[j].id);
        }
        assert(ids_unique(self.nodes())) by {
            assert forall|a: int, b: int| 0 <= a < before.len() && 0 <= b < before.len() && a != b implies #[trigger] self.nodes()[a].id != #[trigger] self.nodes()[b].id by {
                assert(self.nodes()[a].id == before[a].id);
                assert(self.nodes()[b].id == before[b].id);
            }
        }
    }
}

} // verus!
