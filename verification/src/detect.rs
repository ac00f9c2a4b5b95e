//! Input format detection from content.
use vstd::prelude::*;

use crate::emit::{file_extension, format_for_ext, output_format_for_extension, path_extension, FormatError, OutputFormat};
use crate::text::{chars_of, lines, lines_of, trim, trim_chars, views_eq};

verus! {

/// The input formats.
#[derive(Clone, Copy, Debug, PartialEq, Eq, Structural)]
pub enum InputFormat {
    Dot,
    Mermaid,
    Tgf,
    Depfile,
    CargoMetadata,
    CargoTree,
    Tree,
    Pathlist,
}

/// Whether some line of `s`, trimmed, is exactly `#` (the TGF separator).
pub open spec fn has_tgf_separator(s: Seq<char>) -> bool {
    exists|i: int| 0 <= i < lines(s).len() && trim(#[trigger] lines(s)[i]) == seq!['#']
}

impl InputFormat {
    /// Content heuristic for one format: TGF input has a `#` line; no other
    /// format is recognised from content.
    pub fn matches_content(&self, input: &str) -> (b: bool)
        ensures
            b == (*self == InputFormat::Tgf && has_tgf_separator(input@)),
    {
        match self {
            InputFormat::Tgf => {
                let v = chars_of(input);
                let ls = lines_of(v.as_slice());
                let mut i: usize = 0;
                while i < ls.len()
                    invariant
                        i <= ls.len(),
                        *self == InputFormat::Tgf,
                        views_eq(ls@, lines(input@)),
                        forall|k: int| 0 <= k < i ==> trim(lines(input@)[k]) != seq!['#'],
                    decreases ls.len() - i,
                {
                    let t = trim_chars(ls[i].as_slice());
                    assert(ls@[i as int]@ == lines(input@)[i as int]);
                    if t.len() == 1 && t[0] == '#' {
                        assert(t@ =~= seq!['#']);
                        assert(trim(lines(input@)[i as int]) == seq!['#']);
                        return true;
                    }
                    assert(t@ != seq!['#']);
                    i = i + 1;
                }
                false
            },
            _ => false,
        }
    }
}

/// Detect the input format from content heuristics; `None` when no format matches.
pub fn detect(input: &str) -> (r: Option<InputFormat>)
    ensures
        r == (if has_tgf_separator(input@) {
            Some(InputFormat::Tgf)
        } else {
            None
        }),
{
    if InputFormat::Tgf.matches_content(input) {
        Some(InputFormat::Tgf)
    } else {
        None
    }
}

/// What `detect` finds in the content `s`.
pub open spec fn detect_spec(s: Seq<char>) -> Option<InputFormat> {
    if has_tgf_separator(s) {
        Some(InputFormat::Tgf)
    } else {
        None
    }
}

/// The input format a file extension names: the graph formats that are also
/// written (`dot`/`gv`, `mmd`/`mermaid`, `tgf`, `d`).
pub open spec fn input_for_ext(ext: Seq<char>) -> Option<InputFormat> {
    match format_for_ext(ext) {
        Some(OutputFormat::Dot) => Some(InputFormat::Dot),
        Some(OutputFormat::Mermaid) => Some(InputFormat::Mermaid),
        Some(OutputFormat::Tgf) => Some(InputFormat::Tgf),
        Some(OutputFormat::Depfile) => Some(InputFormat::Depfile),
        _ => None,
    }
}

/// The input format: the explicit flag if given, else the one the file
/// extension of `path` names, else the one the content shows; failing all,
/// why the extension did not name one (or `Undetected` without a path).
pub fn resolve_input_format(flag: Option<InputFormat>, path: Option<&str>, input: &str) -> (r: Result<
    InputFormat,
    FormatError,
>)
    ensures
        flag is Some ==> r == Ok::<InputFormat, FormatError>(flag->0),
        flag is None && path is Some && path_extension(path->0@) is Some && input_for_ext(path_extension(path->0@)->0) is Some
            ==> r == Ok::<InputFormat, FormatError>(input_for_ext(path_extension(path->0@)->0)->0),
        flag is None && !(path is Some && path_extension(path->0@) is Some && input_for_ext(path_extension(path->0@)->0) is Some)
            && detect_spec(input@) is Some ==> r == Ok::<InputFormat, FormatError>(detect_spec(input@)->0),
        flag is None && !(path is Some && path_extension(path->0@) is Some && input_for_ext(path_extension(path->0@)->0) is Some)
            && detect_spec(input@) is None ==> match path {
            None => r matches Err(FormatError::Undetected),
            Some(p) => match path_extension(p@) {
                None => r matches Err(FormatError::NoExtension(q)) && q@ == p@,
                Some(e) => r matches Err(FormatError::UnrecognizedExtension(x)) && x@ == e,
            },
        },
{
    if let Some(f) = flag {
        return Ok(f);
    }
    let ext_err = match path {
        None => FormatError::Undetected,
        Some(p) => match file_extension(p) {
            None => FormatError::NoExtension(p.to_owned()),
            Some(e) => {
                let found = match output_format_for_extension(e.as_str()) {
                    Some(OutputFormat::Dot) => Some(InputFormat::Dot),
                    Some(OutputFormat::Mermaid) => Some(InputFormat::Mermaid),
                    Some(OutputFormat::Tgf) => Some(InputFormat::Tgf),
                    Some(OutputFormat::Depfile) => Some(InputFormat::Depfile),
                    _ => None,
                };
                match found {
                    Some(f) => {
                        return Ok(f);
                    },
                    None => FormatError::UnrecognizedExtension(e),
                }
            },
        },
    };
    match detect(input) {
        Some(f) => Ok(f),
        None => Err(ext_err),
    }
}

} // verus!
