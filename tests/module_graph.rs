use mako::assets::LoadError;
use mako::coordinator::{BuildError, BuildResult, Coordinator, Event, ResolvedDep, Step, Task};
use mako::module::{Dependency, ModuleAst, ResolveType};

/// A project on disk, as each path's resolved imports: (target, external binding).
type Project<'a> = &'a [(&'a str, &'a [(&'a str, Option<&'a str>)])];

fn pipeline(project: Project, task: Task) -> BuildResult {
    let imports = project
        .iter()
        .find(|(p, _)| *p == task.path)
        .map(|(_, d)| d.to_vec())
        .unwrap_or_default();
    let deps = imports
        .iter()
        .map(|(target, external)| ResolvedDep {
            target: target.to_string(),
            external: external.map(|e| e.to_string()),
            dependency: Dependency::new(format!("./{}", target), ResolveType::Import),
        })
        .collect();
    let code = format!("// {}", task.path);
    BuildResult { task, ast: ModuleAst::Script(code), deps }
}

/// Runs a build to its end; results complete last-in-first-out when `lifo`.
fn build(entries: &[&str], project: Project, lifo: bool) -> (Vec<String>, Vec<String>, Coordinator) {
    let mut c = Coordinator::seed(entries.iter().map(|e| e.to_string()).collect()).unwrap();
    let mut running: Vec<BuildResult> = Vec::new();
    loop {
        for task in c.take_tasks() {
            running.push(pipeline(project, task));
        }
        let event = if running.is_empty() {
            Event::Idle
        } else if lifo {
            Event::Built(running.pop().unwrap())
        } else {
            Event::Built(running.remove(0))
        };
        match c.handle(event) {
            Step::Continue => {}
            Step::Done => break,
            Step::Abort(e) => panic!("build failed: {:?}", e),
        }
    }
    let mut ids: Vec<String> = c.graph.modules.iter().map(|m| m.id.clone()).collect();
    ids.sort();
    let mut edges: Vec<String> = c.graph.edges.iter().map(|e| format!("{} -> {}", e.from, e.to)).collect();
    edges.sort();
    (ids, edges, c)
}

const NORMAL: Project = &[
    ("index.ts", &[("bar_1.ts", None), ("bar_2.ts", None)]),
    ("bar_1.ts", &[("foo.ts", None)]),
    ("bar_2.ts", &[("foo.ts", None)]),
    ("foo.ts", &[]),
];

const CSS: Project = &[
    ("index.ts", &[("index.css", None)]),
    ("index.css", &[("foo.css", None), ("umi-logo.png", None)]),
    ("foo.css", &[]),
    ("umi-logo.png", &[]),
];

#[test]
fn test_build() {
    let (module_ids, references, _) = build(&["index.ts"], NORMAL, false);
    assert_eq!(module_ids.join(","), "bar_1.ts,bar_2.ts,foo.ts,index.ts".to_string());
    assert_eq!(
        references.join(","),
        "bar_1.ts -> foo.ts,bar_2.ts -> foo.ts,index.ts -> bar_1.ts,index.ts -> bar_2.ts".to_string()
    );
}

#[test]
fn test_build_css() {
    let (module_ids, references, _) = build(&["index.ts"], CSS, false);
    assert_eq!(module_ids.join(","), "foo.css,index.css,index.ts,umi-logo.png".to_string());
    assert_eq!(
        references.join(","),
        "index.css -> foo.css,index.css -> umi-logo.png,index.ts -> index.css".to_string()
    );
}

#[test]
fn completion_order_does_not_change_the_graph() {
    let (ids_a, edges_a, _) = build(&["index.ts"], NORMAL, false);
    let (ids_b, edges_b, _) = build(&["index.ts"], NORMAL, true);
    assert_eq!(ids_a, ids_b);
    assert_eq!(edges_a, edges_b);
    let (ids_c, edges_c, _) = build(&["index.ts"], CSS, true);
    assert_eq!(ids_c.join(","), "foo.css,index.css,index.ts,umi-logo.png");
    assert_eq!(edges_c.len(), 3);
}

#[test]
fn shared_dependency_is_built_once() {
    let mut c = Coordinator::seed(vec!["index.ts".to_string()]).unwrap();
    let tasks = c.take_tasks();
    assert_eq!(tasks.len(), 1);
    assert!(matches!(c.handle(Event::Built(pipeline(NORMAL, tasks.into_iter().next().unwrap()))), Step::Continue));
    let tasks = c.take_tasks();
    let paths: Vec<String> = tasks.iter().map(|t| t.path.clone()).collect();
    assert_eq!(paths, vec!["bar_1.ts".to_string(), "bar_2.ts".to_string()]);
    for t in tasks {
        assert!(matches!(c.handle(Event::Built(pipeline(NORMAL, t))), Step::Continue));
    }
    let tasks = c.take_tasks();
    assert_eq!(tasks.len(), 1);
    assert_eq!(tasks[0].path, "foo.ts");
    assert!(!tasks[0].is_entry);
}

#[test]
fn every_node_complete_and_entries_marked() {
    let (_, _, c) = build(&["index.ts"], NORMAL, true);
    assert_eq!(c.graph.modules.len(), 4);
    for m in &c.graph.modules {
        assert!(m.info.is_some());
        assert_eq!(m.is_entry, m.id == "index.ts");
    }
}

#[test]
fn external_dependency_gets_no_task() {
    let project: Project = &[("index.ts", &[("react", Some("React")), ("a.ts", None)]), ("a.ts", &[("react", Some("React"))])];
    let mut c = Coordinator::seed(vec!["index.ts".to_string()]).unwrap();
    let t = c.take_tasks().into_iter().next().unwrap();
    assert!(matches!(c.handle(Event::Built(pipeline(project, t))), Step::Continue));
    let tasks = c.take_tasks();
    assert_eq!(tasks.len(), 1);
    assert_eq!(tasks[0].path, "a.ts");
    let react = c.graph.modules.iter().find(|m| m.id == "react").unwrap();
    let info = react.info.as_ref().unwrap();
    assert_eq!(info.external.as_deref(), Some("React"));
    match &info.ast {
        ModuleAst::Script(code) => assert_eq!(code, "module.exports = React;"),
        ModuleAst::Style(_) => panic!("external module is a script"),
    }
    let (ids, edges, _) = build(&["index.ts"], project, false);
    assert_eq!(ids.join(","), "a.ts,index.ts,react");
    assert_eq!(edges.join(","), "a.ts -> react,index.ts -> a.ts,index.ts -> react");
}

#[test]
fn repeated_imports_keep_every_edge() {
    let project: Project = &[("index.ts", &[("a.ts", None), ("a.ts", None)]), ("a.ts", &[])];
    let (ids, edges, _) = build(&["index.ts"], project, false);
    assert_eq!(ids.join(","), "a.ts,index.ts");
    assert_eq!(edges.join(","), "index.ts -> a.ts,index.ts -> a.ts");
}

#[test]
fn import_of_an_entry_does_not_rebuild_it() {
    let project: Project = &[("a.ts", &[("b.ts", None)]), ("b.ts", &[("a.ts", None)])];
    let (ids, edges, c) = build(&["a.ts", "b.ts", "a.ts"], project, true);
    assert_eq!(ids.join(","), "a.ts,b.ts");
    assert_eq!(edges.join(","), "a.ts -> b.ts,b.ts -> a.ts");
    assert!(c.graph.modules.iter().all(|m| m.is_entry));
}

#[test]
fn no_entry_is_an_error() {
    assert!(matches!(Coordinator::seed(Vec::new()), Err(BuildError::EntryNotFound)));
}

#[test]
fn idle_with_work_in_flight_continues() {
    let mut c = Coordinator::seed(vec!["index.ts".to_string()]).unwrap();
    assert!(matches!(c.handle(Event::Idle), Step::Continue));
    let _ = c.take_tasks();
    assert!(matches!(c.handle(Event::Idle), Step::Continue));
}

#[test]
fn unexpected_result_aborts() {
    let mut c = Coordinator::seed(vec!["index.ts".to_string()]).unwrap();
    let stray = pipeline(NORMAL, Task { path: "foo.ts".to_string(), is_entry: false });
    match c.handle(Event::Built(stray)) {
        Step::Abort(BuildError::UnexpectedResult { path }) => assert_eq!(path, "foo.ts"),
        _ => panic!("expected an abort"),
    }
}

#[test]
fn closed_channel_and_failed_task_abort() {
    let mut c = Coordinator::seed(vec!["index.ts".to_string()]).unwrap();
    let _ = c.take_tasks();
    assert!(matches!(c.handle(Event::Disconnected), Step::Abort(BuildError::InternalChannelFailure)));
    let failed = BuildError::Load(LoadError::NotFound { path: "index.ts".to_string() });
    match c.handle(Event::Failed(failed)) {
        Step::Abort(BuildError::Load(LoadError::NotFound { path })) => assert_eq!(path, "index.ts"),
        _ => panic!("expected an abort"),
    }
}
