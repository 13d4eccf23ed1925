use vstd::prelude::*;

use crate::coordinator::{BuildError, BuildResult, ResolvedDep, Task};
use crate::module::{Dependency, ModuleAst, ResolveType};

verus! {

/// Whether some dependency of `ds` is written as `source`.
pub open spec fn has_source(ds: Seq<Dependency>, source: Seq<char>) -> bool {
    exists|k: int| 0 <= k < ds.len() && #[trigger] ds[k].source@ == source
}

fn find_source(ds: &Vec<Dependency>, source: &String) -> (r: bool)
    ensures
        r == has_source(ds@, source@),
{
    let mut k: usize = 0;
    while k < ds.len()
        invariant
            k <= ds.len(),
            forall|c: int| 0 <= c < k ==> ds@[c].source@ != source@,
        decreases ds.len() - k,
    {
        if ds[k].source == *source {
            return true;
        }
        k = k + 1;
    }
    false
}

/// Appends a `require` dependency for each runtime helper that the transformed
/// tree refers to and that no dependency names yet: helpers are injected after
/// the analysis, so without this they would be missing from the graph.
pub fn add_helper_deps(deps: &mut Vec<Dependency>, helpers: &Vec<String>)
    ensures
        final(deps)@.len() >= old(deps)@.len(),
        final(deps)@.subrange(0, old(deps)@.len() as int) == old(deps)@,
        forall|h: int| 0 <= h < helpers.len() ==> has_source(final(deps)@, #[trigger] helpers@[h]@),
        forall|k: int|
            old(deps)@.len() <= k < final(deps)@.len() ==> (#[trigger] final(deps)@[k]).resolve_type
                == ResolveType::Require && !has_source(old(deps)@, final(deps)@[k].source@) && exists|h: int|
                0 <= h < helpers.len() && helpers@[h]@ == final(deps)@[k].source@,
        forall|a: int, b: int|
            old(deps)@.len() <= a < b < final(deps)@.len() ==> (#[trigger] final(deps)@[a]).source@
                != (#[trigger] final(deps)@[b]).source@,
{
    let ghost d0 = deps@;
    let mut i: usize = 0;
    while i < helpers.len()
        invariant
            i <= helpers.len(),
            deps@.len() >= d0.len(),
            deps@.subrange(0, d0.len() as int) == d0,
            forall|h: int| 0 <= h < i ==> has_source(deps@, #[trigger] helpers@[h]@),
            forall|k: int|
                d0.len() <= k < deps@.len() ==> (#[trigger] deps@[k]).resolve_type == ResolveType::Require
                    && !has_source(d0, deps@[k].source@) && exists|h: int|
                    0 <= h < helpers.len() && helpers@[h]@ == deps@[k].source@,
            forall|a: int, b: int|
                d0.len() <= a < b < deps@.len() ==> (#[trigger] deps@[a]).source@ != (#[trigger] deps@[b]).source@,
        decreases helpers.len() - i,
    {
        let ghost before = deps@;
        if !find_source(deps, &helpers[i]) {
            deps.push(Dependency::new(helpers[i].clone(), ResolveType::Require));
            proof {
                let n = before.len() as int;
                assert(deps@[n].source@ == helpers@[i as int]@);
                assert(deps@.subrange(0, d0.len() as int) =~= before.subrange(0, d0.len() as int));
                assert forall|h: int| 0 <= h <= i implies has_source(deps@, #[trigger] helpers@[h]@) by {
                    if h < i {
                        let k = choose|k: int| 0 <= k < before.len() && #[trigger] before[k].source@ == helpers@[h]@;
                        assert(deps@[k] == before[k]);
                    }
                }
                assert(!has_source(d0, helpers@[i as int]@)) by {
                    if has_source(d0, helpers@[i as int]@) {
                        let k = choose|k: int| 0 <= k < d0.len() && #[trigger] d0[k].source@ == helpers@[i as int]@;
                        assert(before.subrange(0, d0.len() as int)[k] == before[k]);
                    }
                }
                assert forall|k: int| d0.len() <= k < deps@.len() implies (#[trigger] deps@[k]).resolve_type
                    == ResolveType::Require && !has_source(d0, deps@[k].source@) && exists|h: int|
                    0 <= h < helpers.len() && helpers@[h]@ == deps@[k].source@ by {
                    if k < n {
                        assert(deps@[k] == before[k]);
                    }
                }
                assert forall|a: int, b: int| d0.len() <= a < b < deps@.len() implies (#[trigger] deps@[a]).source@
                    != (#[trigger] deps@[b]).source@ by {
                    if b == n {
                        assert(deps@[a] == before[a]);
                        assert(has_source(before, before[a].source@));
                    } else {
                        assert(deps@[a] == before[a] && deps@[b] == before[b]);
                    }
                }
            }
        }
        i = i + 1;
    }
}

/// Conventional entry files, tried in this order when no entry is configured.
pub open spec fn default_entry(k: int) -> Seq<char> {
    if k == 0 {
        "src/index.tsx"@
    } else if k == 1 {
        "src/index.ts"@
    } else if k == 2 {
        "index.tsx"@
    } else {
        "index.ts"@
    }
}

/// `rel` joined under the directory `root`.
pub open spec fn join_path(root: Seq<char>, rel: Seq<char>) -> Seq<char> {
    root + "/"@ + rel
}

fn join(root: &String, rel: &str) -> (r: String)
    ensures
        r@ == join_path(root@, rel@),
{
    let mut p = root.clone();
    p.append("/");
    p.append(rel);
    p
}

/// The conventional entry paths under `root`, in the order in which they are tried.
pub fn default_entries(root: &String) -> (r: Vec<String>)
    ensures
        r@.len() == 4,
        forall|k: int| 0 <= k < 4 ==> (#[trigger] r@[k])@ == join_path(root@, default_entry(k)),
{
    let mut r: Vec<String> = Vec::new();
    r.push(join(root, "src/index.tsx"));
    r.push(join(root, "src/index.ts"));
    r.push(join(root, "index.tsx"));
    r.push(join(root, "index.ts"));
    r
}

/// The entry paths of a build. Configured entries (relative to `root`) win; with
/// none, the first conventional file that exists is the entry (`exists[k]` tells
/// whether the `k`-th of `default_entries(root)` exists; a missing flag counts as
/// absent). With neither, there is no entry.
pub fn get_entries(root: &String, configured: &Vec<String>, exists: &Vec<bool>) -> (r: Result<Vec<String>, BuildError>)
    ensures
        configured.len() > 0 ==> (r matches Ok(es) && es@.len() == configured@.len() && forall|k: int|
            0 <= k < configured.len() ==> (#[trigger] es@[k])@ == join_path(root@, configured@[k]@)),
        configured.len() == 0 ==> match r {
            Ok(es) => es@.len() == 1 && exists|k: int|
                0 <= k < 4 && k < exists.len() && exists@[k] && es@[0]@ == join_path(root@, default_entry(k))
                    && forall|j: int| 0 <= j < k && j < exists.len() ==> !exists@[j],
            Err(e) => e is EntryNotFound && forall|j: int| 0 <= j < 4 && j < exists.len() ==> !exists@[j],
        },
{
    if configured.len() > 0 {
        let mut es: Vec<String> = Vec::new();
        let mut i: usize = 0;
        while i < configured.len()
            invariant
                i <= configured.len(),
                es@.len() == i,
                forall|k: int| 0 <= k < i ==> (#[trigger] es@[k])@ == join_path(root@, configured@[k]@),
            decreases configured.len() - i,
        {
            assert(configured@[i as int]@ == configured[i as int]@);
            let p = join(root, configured[i].as_str());
            let ghost before = es@;
            es.push(p);
            assert(forall|k: int| 0 <= k < i ==> es@[k] == before[k]);
            i = i + 1;
        }
        return Ok(es);
    }
    let candidates = default_entries(root);
    let mut k: usize = 0;
    while k < 4
        invariant
            k <= 4,
            configured.len() == 0,
            candidates@.len() == 4,
            forall|c: int| 0 <= c < 4 ==> (#[trigger] candidates@[c])@ == join_path(root@, default_entry(c)),
            forall|j: int| 0 <= j < k && j < exists.len() ==> !exists@[j],
        decreases 4 - k,
    {
        if k < exists.len() && exists[k] {
            let mut es: Vec<String> = Vec::new();
            es.push(candidates[k].clone());
            return Ok(es);
        }
        k = k + 1;
    }
    Err(BuildError::EntryNotFound)
}

/// The last step of a task's pipeline: each specifier of `deps` with what the
/// resolver answered for it (`None` when it could not map it). The first
/// specifier left unresolved fails the task; otherwise the result carries every
/// dependency, in order, with its target and external binding.
pub fn assemble_result(
    task: Task,
    ast: ModuleAst,
    deps: Vec<Dependency>,
    resolved: Vec<Option<(String, Option<String>)>>,
) -> (r: Result<BuildResult, BuildError>)
    requires
        deps.len() == resolved.len(),
    ensures
        (forall|i: int| 0 <= i < resolved.len() ==> (#[trigger] resolved@[i]) is Some) ==> (r matches Ok(b) && b.task
            == task && b.ast == ast && b.deps@.len() == deps.len() && forall|i: int|
            0 <= i < deps.len() ==> (#[trigger] b.deps@[i]).dependency == deps@[i] && b.deps@[i].target
                == (resolved@[i]->0).0 && b.deps@[i].external == (resolved@[i]->0).1),
        forall|i: int|
            0 <= i < resolved.len() && (#[trigger] resolved@[i]) is None && (forall|j: int|
                0 <= j < i ==> (#[trigger] resolved@[j]) is Some) ==> (r matches Err(BuildError::Resolve { path, source })
                && path == task.path && source == deps@[i].source),
{
    let n = deps.len();
    let mut out: Vec<ResolvedDep> = Vec::new();
    let mut i: usize = 0;
    while i < n
        invariant
            n == deps.len(),
            n == resolved.len(),
            i <= n,
            out@.len() == i,
            forall|k: int| 0 <= k < i ==> (#[trigger] resolved@[k]) is Some,
            forall|k: int|
                0 <= k < i ==> (#[trigger] out@[k]).dependency == deps@[k] && out@[k].target == (resolved@[k]->0).0
                    && out@[k].external == (resolved@[k]->0).1,
        decreases n - i,
    {
        match &resolved[i] {
            Some((target, external)) => {
                let external = match external {
                    Some(e) => Some(e.clone()),
                    None => None,
                };
                out.push(ResolvedDep { target: target.clone(), external, dependency: deps[i].duplicate() });
            },
            None => {
                proof {
                    assert forall|x: int|
                        0 <= x < resolved.len() && #[trigger] resolved@[x] is None && (forall|j: int|
                            0 <= j < x ==> (#[trigger] resolved@[j]) is Some) implies x == i by {
                        if x > i {
                            assert(resolved@[i as int] is Some);
                        }
                    }
                }
                return Err(BuildError::Resolve { path: task.path, source: deps[i].source.clone() });
            },
        }
        i = i + 1;
    }
    Ok(BuildResult { task, ast, deps: out })
}

} // verus!
