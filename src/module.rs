use vstd::prelude::*;

verus! {

/// How an import was written; the coordinator copies it onto the edge unread.
#[derive(Clone, Copy, PartialEq, Eq, Debug)]
pub enum ResolveType {
    Import,
    ExportNamed,
    ExportAll,
    Require,
    DynamicImport,
    Css,
}

/// An import as written by the importer.
#[derive(Debug)]
pub struct Dependency {
    pub source: String,
    pub resolve_type: ResolveType,
}

pub struct DependencyView {
    pub source: Seq<char>,
    pub resolve_type: ResolveType,
}

impl View for Dependency {
    type V = DependencyView;

    open spec fn view(&self) -> DependencyView {
        DependencyView { source: self.source@, resolve_type: self.resolve_type }
    }
}

impl Dependency {
    pub fn new(source: String, resolve_type: ResolveType) -> (r: Dependency)
        ensures
            r.source == source,
            r.resolve_type == resolve_type,
    {
        Dependency { source, resolve_type }
    }

    pub fn duplicate(&self) -> (r: Dependency)
        ensures
            r == *self,
    {
        Dependency { source: self.source.clone(), resolve_type: self.resolve_type }
    }
}

/// A module's transformed syntax tree, tagged by kind and held as its code.
#[derive(Debug)]
pub enum ModuleAst {
    Script(String),
    Style(String),
}

pub enum AstView {
    Script(Seq<char>),
    Style(Seq<char>),
}

impl View for ModuleAst {
    type V = AstView;

    open spec fn view(&self) -> AstView {
        match self {
            ModuleAst::Script(c) => AstView::Script(c@),
            ModuleAst::Style(c) => AstView::Style(c@),
        }
    }
}

#[derive(Debug)]
pub struct ModuleInfo {
    pub ast: ModuleAst,
    pub path: String,
    pub external: Option<String>,
}

pub struct InfoView {
    pub ast: AstView,
    pub path: Seq<char>,
    pub external: Option<Seq<char>>,
}

impl View for ModuleInfo {
    type V = InfoView;

    open spec fn view(&self) -> InfoView {
        InfoView {
            ast: self.ast@,
            path: self.path@,
            external: match self.external {
                Some(e) => Some(e@),
                None => None,
            },
        }
    }
}

/// A node of the module graph; `info` is absent while the module is a placeholder.
#[derive(Debug)]
pub struct Module {
    pub id: String,
    pub is_entry: bool,
    pub info: Option<ModuleInfo>,
}

pub struct ModuleView {
    pub id: Seq<char>,
    pub is_entry: bool,
    pub info: Option<InfoView>,
}

impl View for Module {
    type V = ModuleView;

    open spec fn view(&self) -> ModuleView {
        ModuleView {
            id: self.id@,
            is_entry: self.is_entry,
            info: match self.info {
                Some(i) => Some(i@),
                None => None,
            },
        }
    }
}

/// The code of a module that re-exports the runtime global `name`.
pub open spec fn export_code(name: Seq<char>) -> Seq<char> {
    "module.exports = "@ + name + ";"@
}

/// Builds `module.exports = <name>;`.
pub fn export_wrapper(name: &String) -> (r: String)
    ensures
        r@ == export_code(name@),
{
    let mut code = String::from_str("module.exports = ");
    code.append(name.as_str());
    code.append(";");
    code
}

/// The node of an external module: its tree is the export wrapper of `name`.
pub open spec fn external_node(id: Seq<char>, name: Seq<char>) -> ModuleView {
    ModuleView {
        id,
        is_entry: false,
        info: Some(InfoView { ast: AstView::Script(export_code(name)), path: id, external: Some(name) }),
    }
}

pub fn external_module(id: &String, name: &String) -> (r: Module)
    ensures
        r@ == external_node(id@, name@),
{
    let code = export_wrapper(name);
    Module {
        id: id.clone(),
        is_entry: false,
        info: Some(ModuleInfo { ast: ModuleAst::Script(code), path: id.clone(), external: Some(name.clone()) }),
    }
}

} // verus!
