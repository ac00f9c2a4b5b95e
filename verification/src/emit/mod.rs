//! Emitters from a [`DepGraph`](crate::graph::DepGraph) into the text formats.
use std::path::Path;
use vstd::prelude::*;

use crate::text::chars_of;

pub mod depfile;
pub mod dot;
pub mod mermaid;
pub mod pathlist;
pub mod tgf;
pub mod tree;
pub mod walk;

verus! {

/// The output formats.
#[derive(Clone, Copy, Debug, PartialEq, Eq, Structural)]
pub enum OutputFormat {
    Dot,
    Mermaid,
    Tgf,
    Depfile,
    Tree,
    Pathlist,
}

/// Why no format could be chosen.
#[derive(Clone, Debug)]
pub enum FormatError {
    /// The path has no (UTF-8) file extension; holds the path.
    NoExtension(String),
    /// The extension names no known format; holds the extension.
    UnrecognizedExtension(String),
    /// No path was given and the content names no input format.
    Undetected,
}

/// The format a file extension names.
pub open spec fn format_for_ext(ext: Seq<char>) -> Option<OutputFormat> {
    if ext == seq!['d', 'o', 't'] || ext == seq!['g', 'v'] {
        Some(OutputFormat::Dot)
    } else if ext == seq!['m', 'm', 'd'] || ext == seq!['m', 'e', 'r', 'm', 'a', 'i', 'd'] {
        Some(OutputFormat::Mermaid)
    } else if ext == seq!['t', 'g', 'f'] {
        Some(OutputFormat::Tgf)
    } else if ext == seq!['d'] {
        Some(OutputFormat::Depfile)
    } else {
        None
    }
}

fn chars_eq(v: &Vec<char>, w: &[char]) -> (b: bool)
    ensures
        b == (v@ == w@),
{
    if v.len() != w.len() {
        return false;
    }
    let mut i: usize = 0;
    while i < w.len()
        invariant
            i <= w.len() == v.len(),
            forall|k: int| 0 <= k < i ==> v@[k] == w@[k],
        decreases w.len() - i,
    {
        if v[i] != w[i] {
            return false;
        }
        i = i + 1;
    }
    assert(v@ =~= w@);
    true
}

/// The format named by a file extension (`dot`/`gv`, `mmd`/`mermaid`, `tgf`, `d`).
pub fn output_format_for_extension(ext: &str) -> (r: Option<OutputFormat>)
    ensures
        r == format_for_ext(ext@),
{
    let v = chars_of(ext);
    let dot = ['d', 'o', 't'];
    let gv = ['g', 'v'];
    let mmd = ['m', 'm', 'd'];
    let mermaid = ['m', 'e', 'r', 'm', 'a', 'i', 'd'];
    let tgf = ['t', 'g', 'f'];
    let d = ['d'];
    assert(dot@ =~= seq!['d', 'o', 't']);
    assert(gv@ =~= seq!['g', 'v']);
    assert(mmd@ =~= seq!['m', 'm', 'd']);
    assert(mermaid@ =~= seq!['m', 'e', 'r', 'm', 'a', 'i', 'd']);
    assert(tgf@ =~= seq!['t', 'g', 'f']);
    assert(d@ =~= seq!['d']);
    if chars_eq(&v, &dot) || chars_eq(&v, &gv) {
        Some(OutputFormat::Dot)
    } else if chars_eq(&v, &mmd) || chars_eq(&v, &mermaid) {
        Some(OutputFormat::Mermaid)
    } else if chars_eq(&v, &tgf) {
        Some(OutputFormat::Tgf)
    } else if chars_eq(&v, &d) {
        Some(OutputFormat::Depfile)
    } else {
        None
    }
}

/// The extension that `Path::extension` finds in the path text `p`, when it
/// is valid UTF-8.
pub uninterp spec fn path_extension(p: Seq<char>) -> Option<Seq<char>>;

/// `Path::extension` (then `OsStr::to_str`) of the path text `p`.
#[verifier::external_body]
pub(crate) fn file_extension(p: &str) -> (r: Option<String>)
    ensures
        match r {
            Some(e) => path_extension(p@) == Some(e@),
            None => path_extension(p@) is None,
        },
{
    Path::new(p).extension().and_then(|e| e.to_str()).map(|e| e.to_string())
}

/// The output format: the explicit flag if given, else the one the file
/// extension of `path` names, else DOT when there is no path.
pub fn resolve_output_format(flag: Option<OutputFormat>, path: Option<&str>) -> (r: Result<
    OutputFormat,
    FormatError,
>)
    ensures
        flag is Some ==> r == Ok::<OutputFormat, FormatError>(flag->0),
        flag is None && path is None ==> r == Ok::<OutputFormat, FormatError>(OutputFormat::Dot),
        flag is None && path is Some ==> match path_extension(path->0@) {
            None => r matches Err(FormatError::NoExtension(p)) && p@ == path->0@,
            Some(e) => match format_for_ext(e) {
                Some(f) => r == Ok::<OutputFormat, FormatError>(f),
                None => r matches Err(FormatError::UnrecognizedExtension(x)) && x@ == e,
            },
        },
{
    if let Some(f) = flag {
        return Ok(f);
    }
    match path {
        None => Ok(OutputFormat::Dot),
        Some(p) => match file_extension(p) {
            None => Err(FormatError::NoExtension(p.to_owned())),
            Some(e) => match output_format_for_extension(e.as_str()) {
                Some(f) => Ok(f),
                None => Err(FormatError::UnrecognizedExtension(e)),
            },
        },
    }
}

/// The text of `g` in the given output format.
pub open spec fn emit_spec(format: OutputFormat, g: crate::graph::GraphView) -> Seq<char> {
    match format {
        OutputFormat::Dot => dot::dot_spec(g),
        OutputFormat::Mermaid => mermaid::mermaid_spec(g),
        OutputFormat::Tgf => tgf::tgf_spec(g),
        OutputFormat::Depfile => depfile::depfile_spec(g),
        OutputFormat::Pathlist => pathlist::pathlist_spec(g),
        OutputFormat::Tree => tree::tree_spec(g),
    }
}

/// The graph in the given output format.
///
/// Not every format keeps everything: DOT keeps graph, node and edge labels
/// and attributes; Mermaid keeps the direction, labels and node shapes; TGF
/// and the tree and pathlist forms keep labels (TGF also edge labels);
/// depfiles keep only the structure. What a format cannot hold is left out.
pub fn emit(format: OutputFormat, graph: &crate::graph::DepGraph) -> (r: String)
    ensures
        r@ == emit_spec(format, graph@),
{
    match format {
        OutputFormat::Dot => dot::emit(graph),
        OutputFormat::Mermaid => mermaid::emit(graph),
        OutputFormat::Tgf => tgf::emit(graph),
        OutputFormat::Depfile => depfile::emit(graph),
        OutputFormat::Pathlist => pathlist::emit(graph),
        OutputFormat::Tree => tree::emit(graph),
    }
}

} // verus!
