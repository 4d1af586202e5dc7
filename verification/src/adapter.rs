//! Language adapters: which source files each supported language covers.
use vstd::prelude::*;

verus! {

/// Extension point for language-specific support: each adapter names its
/// language and the file extensions it handles.
pub trait LanguageAdapter: Send + Sync {
    /// The canonical lower-case name of the language (e.g. `"rust"`).
    fn language_name(&self) -> &'static str;

    /// The file extensions this adapter handles, each with its leading dot.
    fn file_extensions(&self) -> &'static [&'static str];
}

/// The views of a list of string slices.
pub open spec fn str_views(v: Seq<&str>) -> Seq<Seq<char>> {
    v.map_values(|s: &str| s@)
}

const RUST_EXTENSIONS: [&'static str; 1] = [".rs"];

const PYTHON_EXTENSIONS: [&'static str; 1] = [".py"];

const TYPESCRIPT_EXTENSIONS: [&'static str; 2] = [".ts", ".tsx"];

/// Language adapter for Rust source files.
#[derive(Debug, Clone, Copy)]
pub struct RustAdapter;

/// Language adapter for Python source files.
#[derive(Debug, Clone, Copy)]
pub struct PythonAdapter;

/// Language adapter for TypeScript source files (`.ts` and `.tsx`).
#[derive(Debug, Clone, Copy)]
pub struct TypeScriptAdapter;

impl LanguageAdapter for RustAdapter {
    fn language_name(&self) -> (name: &'static str)
        ensures
            name@ == "rust"@,
    {
        "rust"
    }

    fn file_extensions(&self) -> (exts: &'static [&'static str])
        ensures
            str_views(exts@) == seq![".rs"@],
    {
        let exts: &'static [&'static str] = &RUST_EXTENSIONS;
        assert(str_views(exts@) =~= seq![".rs"@]);
        exts
    }
}

impl LanguageAdapter for PythonAdapter {
    fn language_name(&self) -> (name: &'static str)
        ensures
            name@ == "python"@,
    {
        "python"
    }

    fn file_extensions(&self) -> (exts: &'static [&'static str])
        ensures
            str_views(exts@) == seq![".py"@],
    {
        let exts: &'static [&'static str] = &PYTHON_EXTENSIONS;
        assert(str_views(exts@) =~= seq![".py"@]);
        exts
    }
}

impl LanguageAdapter for TypeScriptAdapter {
    fn language_name(&self) -> (name: &'static str)
        ensures
            name@ == "typescript"@,
    {
        "typescript"
    }

    fn file_extensions(&self) -> (exts: &'static [&'static str])
        ensures
            str_views(exts@) == seq![".ts"@, ".tsx"@],
    {
        let exts: &'static [&'static str] = &TYPESCRIPT_EXTENSIONS;
        assert(str_views(exts@) =~= seq![".ts"@, ".tsx"@]);
        exts
    }
}

} // verus!
