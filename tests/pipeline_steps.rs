use mako::coordinator::{BuildError, Coordinator, Event, Step, Task};
use mako::module::{Dependency, ModuleAst, ResolveType};
use mako::pipeline::{add_helper_deps, assemble_result};

fn resolve(source: &str) -> Option<(String, Option<String>)> {
    match source {
        "./a" => Some(("a.ts".to_string(), None)),
        "@swc/helpers/_/_interop_require_default" => Some(("helpers/interop.js".to_string(), None)),
        "react" => Some(("react".to_string(), Some("React".to_string()))),
        _ => None,
    }
}

#[test]
fn unresolved_specifier_fails_the_task() {
    let task = Task { path: "index.ts".to_string(), is_entry: true };
    let deps = vec![
        Dependency::new("./a".to_string(), ResolveType::Import),
        Dependency::new("./missing".to_string(), ResolveType::Import),
        Dependency::new("./gone".to_string(), ResolveType::Require),
    ];
    let resolved = deps.iter().map(|d| resolve(&d.source)).collect();
    match assemble_result(task, ModuleAst::Script(String::new()), deps, resolved) {
        Err(BuildError::Resolve { path, source }) => {
            assert_eq!(path, "index.ts");
            assert_eq!(source, "./missing");
        }
        _ => panic!("expected a resolve error"),
    }
}

#[test]
fn resolved_dependencies_keep_their_metadata() {
    let task = Task { path: "index.ts".to_string(), is_entry: true };
    let deps = vec![
        Dependency::new("react".to_string(), ResolveType::Import),
        Dependency::new("./a".to_string(), ResolveType::DynamicImport),
    ];
    let resolved = deps.iter().map(|d| resolve(&d.source)).collect();
    let result = assemble_result(task, ModuleAst::Script("x".to_string()), deps, resolved).unwrap();
    assert_eq!(result.task.path, "index.ts");
    assert_eq!(result.deps.len(), 2);
    assert_eq!(result.deps[0].target, "react");
    assert_eq!(result.deps[0].external.as_deref(), Some("React"));
    assert_eq!(result.deps[1].target, "a.ts");
    assert_eq!(result.deps[1].external, None);
    assert_eq!(result.deps[1].dependency.source, "./a");
    assert_eq!(result.deps[1].dependency.resolve_type, ResolveType::DynamicImport);
}

#[test]
fn injected_helper_becomes_an_edge() {
    let mut c = Coordinator::seed(vec!["index.ts".to_string()]).unwrap();
    let task = c.take_tasks().into_iter().next().unwrap();
    let mut deps = vec![Dependency::new("./a".to_string(), ResolveType::Import)];
    add_helper_deps(&mut deps, &vec!["@swc/helpers/_/_interop_require_default".to_string()]);
    let resolved = deps.iter().map(|d| resolve(&d.source)).collect();
    let result = assemble_result(task, ModuleAst::Script(String::new()), deps, resolved).unwrap();
    assert!(matches!(c.handle(Event::Built(result)), Step::Continue));
    let edges: Vec<String> = c.graph.edges.iter().map(|e| format!("{} -> {}", e.from, e.to)).collect();
    assert_eq!(edges, vec!["index.ts -> a.ts", "index.ts -> helpers/interop.js"]);
    let queued: Vec<String> = c.take_tasks().into_iter().map(|t| t.path).collect();
    assert_eq!(queued, vec!["a.ts", "helpers/interop.js"]);
}
