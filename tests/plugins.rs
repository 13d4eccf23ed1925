use mako::assets::{AssetsPlugin, Content, LoadError, PluginLoadParam};
use mako::module::{Dependency, ResolveType};
use mako::pipeline::{add_helper_deps, default_entries, get_entries};
use mako::coordinator::BuildError;

fn param(path: &str, ext: Option<&str>) -> PluginLoadParam {
    PluginLoadParam { path: path.to_string(), ext_name: ext.map(|e| e.to_string()) }
}

#[test]
fn assets_refuses_preprocessor_stylesheets() {
    let plugin = AssetsPlugin {};
    for ext in ["sass", "scss", "stylus"] {
        let p = param(&format!("a.{}", ext), Some(ext));
        assert!(plugin.refuses(&p));
        match plugin.load(&p, Some("x".to_string())) {
            Err(LoadError::UnsupportedExtName { ext_name, path }) => {
                assert_eq!(ext_name, ext);
                assert_eq!(path, format!("a.{}", ext));
            }
            _ => panic!("expected UnsupportedExtName"),
        }
    }
}

#[test]
fn assets_wraps_an_existing_file() {
    let plugin = AssetsPlugin {};
    assert_eq!(plugin.name(), "assets");
    let p = param("umi-logo.png", Some("png"));
    assert!(!plugin.refuses(&p));
    match plugin.load(&p, Some("\"umi-logo.png\"".to_string())) {
        Ok(Some(Content::Js(code))) => assert_eq!(code, "module.exports = \"umi-logo.png\";"),
        _ => panic!("expected script content"),
    }
}

#[test]
fn assets_passes_on_a_missing_file() {
    let plugin = AssetsPlugin {};
    assert!(matches!(plugin.load(&param("nope.png", Some("png")), None), Ok(None)));
    assert!(matches!(plugin.load(&param("Makefile", None), None), Ok(None)));
}

#[test]
fn helper_references_are_appended_once() {
    let mut deps = vec![Dependency::new("react".to_string(), ResolveType::Import)];
    let helpers = vec![
        "@swc/helpers/_/_interop_require_default".to_string(),
        "react".to_string(),
        "@swc/helpers/_/_interop_require_default".to_string(),
    ];
    add_helper_deps(&mut deps, &helpers);
    let sources: Vec<&str> = deps.iter().map(|d| d.source.as_str()).collect();
    assert_eq!(sources, vec!["react", "@swc/helpers/_/_interop_require_default"]);
    assert_eq!(deps[1].resolve_type, ResolveType::Require);
    assert_eq!(deps[0].resolve_type, ResolveType::Import);
}

#[test]
fn configured_entries_are_joined_under_root() {
    let es = get_entries(&"/p".to_string(), &vec!["src/a.ts".to_string(), "b.ts".to_string()], &vec![]).unwrap();
    assert_eq!(es, vec!["/p/src/a.ts".to_string(), "/p/b.ts".to_string()]);
}

#[test]
fn first_existing_default_entry_is_used() {
    let root = "/p".to_string();
    assert_eq!(
        default_entries(&root),
        vec!["/p/src/index.tsx", "/p/src/index.ts", "/p/index.tsx", "/p/index.ts"]
    );
    let es = get_entries(&root, &vec![], &vec![false, true, true, false]).unwrap();
    assert_eq!(es, vec!["/p/src/index.ts".to_string()]);
    let es = get_entries(&root, &vec![], &vec![false, false, false, true]).unwrap();
    assert_eq!(es, vec!["/p/index.ts".to_string()]);
}

#[test]
fn no_default_entry_is_entry_not_found() {
    assert!(matches!(get_entries(&"/p".to_string(), &vec![], &vec![false; 4]), Err(BuildError::EntryNotFound)));
    assert!(matches!(get_entries(&"/p".to_string(), &vec![], &vec![]), Err(BuildError::EntryNotFound)));
}
