use vstd::prelude::*;

use crate::module::{export_code, export_wrapper};

verus! {

/// What a loader asks of a plugin: the file's path and its extension, if any.
#[derive(Debug)]
pub struct PluginLoadParam {
    pub path: String,
    pub ext_name: Option<String>,
}

/// Loaded content, by kind.
#[derive(Debug)]
pub enum Content {
    Js(String),
    Css(String),
}

/// Why content could not be loaded.
#[derive(Debug)]
pub enum LoadError {
    UnsupportedExtName { ext_name: String, path: String },
    NotFound { path: String },
}

/// Stylesheet preprocessor extensions that the asset loader refuses.
pub open spec fn refused_ext(e: Seq<char>) -> bool {
    e == "sass"@ || e == "scss"@ || e == "stylus"@
}

fn is_refused_ext(e: &String) -> (r: bool)
    ensures
        r == refused_ext(e@),
{
    *e == String::from_str("sass") || *e == String::from_str("scss") || *e == String::from_str("stylus")
}

/// Loads any existing file as a script module whose export is the asset's reference.
pub struct AssetsPlugin {}

impl AssetsPlugin {
    pub fn name(&self) -> (r: &'static str)
        ensures
            r@ == "assets"@,
    {
        "assets"
    }

    /// Whether `load` refuses the file outright, before looking at the disk.
    pub fn refuses(&self, param: &PluginLoadParam) -> (r: bool)
        ensures
            r == (param.ext_name matches Some(e) && refused_ext(e@)),
    {
        match &param.ext_name {
            Some(e) => is_refused_ext(e),
            None => false,
        }
    }

    /// Loads the file of `param`. `asset` is the asset's reference (its inlined data
    /// or its emitted name) when the path is a file, and `None` when it is not.
    /// A refused extension is an error; a path that is no file is left to the next
    /// plugin; an asset becomes `module.exports = <asset>;`.
    pub fn load(&self, param: &PluginLoadParam, asset: Option<String>) -> (r: Result<Option<Content>, LoadError>)
        ensures
            (param.ext_name matches Some(e) && refused_ext(e@)) ==> (r matches Err(
                LoadError::UnsupportedExtName { ext_name, path },
            ) && param.ext_name == Some(ext_name) && path == param.path),
            !(param.ext_name matches Some(e) && refused_ext(e@)) ==> match asset {
                None => r == Ok::<Option<Content>, LoadError>(None),
                Some(a) => (r matches Ok(Some(Content::Js(code))) && code@ == export_code(a@)),
            },
    {
        if self.refuses(param) {
            let ext_name = match &param.ext_name {
                Some(e) => e.clone(),
                None => String::new(),
            };
            return Err(LoadError::UnsupportedExtName { ext_name, path: param.path.clone() });
        }
        match asset {
            Some(a) => Ok(Some(Content::Js(export_wrapper(&a)))),
            None => Ok(None),
        }
    }
}

} // verus!
