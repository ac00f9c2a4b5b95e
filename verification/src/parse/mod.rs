//! Parsers from the text formats into a [`DepGraph`](crate::graph::DepGraph).
use vstd::prelude::*;

pub mod cargo_metadata;
pub mod cargo_tree;
pub mod dot;
pub mod mermaid;
pub mod pathlist;
pub mod tgf;
pub mod tree;

use crate::detect::InputFormat;
use crate::graph::{DepGraph, GraphView};
use crate::style::{apply_default_styles, styled};

verus! {

/// Why a parser rejected its input.
#[derive(Debug)]
pub enum ParseError {
    /// An edge line (after `#` in TGF) with fewer than two tokens; holds the trimmed line.
    InvalidEdgeLine(String),
    /// A tree line nested deeper than one level below its predecessor; holds the line.
    UnexpectedDepthJump(String),
    /// DOT text that the DOT grammar rejects; holds the grammar's message.
    InvalidDot(String),
    /// Mermaid text that the Mermaid grammar rejects; holds the grammar's message.
    InvalidMermaid(String),
    /// A format this library does not read (depfiles).
    UnsupportedFormat,
    /// Text that is not `cargo metadata` JSON; holds the JSON reader's message.
    InvalidJson(String),
    /// `cargo metadata` output without its `resolve` section.
    MissingResolve,
}

/// The graph each format's parser makes of `input` (before styling), or
/// `None` when it rejects the input.
pub open spec fn parse_outcome(format: InputFormat, input: Seq<char>) -> Option<GraphView> {
    match format {
        InputFormat::Tgf => match tgf::tgf_spec(input) {
            Ok(st) => Some(tgf::graph_of_state(st)),
            Err(_) => None,
        },
        InputFormat::Tree => match tree::tree_spec(input) {
            Ok(st) => Some(GraphView { id: None, attrs: Seq::empty(), nodes: st.nodes, edges: st.edges, subgraphs: Seq::empty() }),
            Err(_) => None,
        },
        InputFormat::CargoTree => match cargo_tree::cargo_tree_spec(input) {
            Ok(st) => Some(GraphView { id: None, attrs: Seq::empty(), nodes: st.nodes, edges: st.edges, subgraphs: Seq::empty() }),
            Err(_) => None,
        },
        InputFormat::Pathlist => Some(pathlist::pathlist_spec(input)),
        InputFormat::Dot => match dot::dot_syntax(input) {
            Some(t) => Some(dot::dot_model(t)),
            None => None,
        },
        InputFormat::Mermaid => match mermaid::mermaid_syntax(input) {
            Some(f) => Some(mermaid::mermaid_model(f)),
            None => None,
        },
        InputFormat::CargoMetadata => match cargo_metadata::metadata_of(input) {
            Some(m) => cargo_metadata::metadata_graph(m),
            None => None,
        },
        InputFormat::Depfile => None,
    }
}

/// Parses `input` as `format`, then applies the default styles.
///
/// Depfiles are not read by this library: they give
/// [`ParseError::UnsupportedFormat`]. Otherwise the result is that of the
/// format's parser, styled by [`apply_default_styles`].
pub fn parse_as(format: InputFormat, input: &str) -> (r: Result<DepGraph, ParseError>)
    ensures
        match parse_outcome(format, input@) {
            Some(v) => r matches Ok(g) && g@ == styled(v),
            None => r is Err,
        },
        format == InputFormat::Depfile ==> r matches Err(ParseError::UnsupportedFormat),
        format == InputFormat::CargoMetadata ==> (cargo_metadata::metadata_of(input@) is None ==> r matches Err(ParseError::InvalidJson(_))),
        format == InputFormat::CargoMetadata ==> (cargo_metadata::metadata_of(input@) matches Some(m) && cargo_metadata::metadata_graph(m) is None ==> r matches Err(ParseError::MissingResolve)),
        format == InputFormat::Tgf ==> (tgf::tgf_spec(input@) matches Err(line) ==> r matches Err(ParseError::InvalidEdgeLine(l)) && l@ == line),
        format == InputFormat::Tree ==> (tree::tree_spec(input@) matches Err(line) ==> r matches Err(ParseError::UnexpectedDepthJump(l)) && l@ == line),
        format == InputFormat::CargoTree ==> (cargo_tree::cargo_tree_spec(input@) matches Err(text) ==> r matches Err(ParseError::UnexpectedDepthJump(l)) && l@ == text),
        format == InputFormat::Dot ==> (r is Err ==> r matches Err(ParseError::InvalidDot(_))),
        format == InputFormat::Mermaid ==> (r is Err ==> r matches Err(ParseError::InvalidMermaid(_))),
{
    let parsed = match format {
        InputFormat::Tgf => tgf::parse(input),
        InputFormat::Tree => tree::parse(input),
        InputFormat::CargoTree => cargo_tree::parse(input),
        InputFormat::Pathlist => pathlist::parse(input),
        InputFormat::Dot => dot::parse(input),
        InputFormat::Mermaid => mermaid::parse(input),
        InputFormat::CargoMetadata => cargo_metadata::parse(input),
        InputFormat::Depfile => Err(ParseError::UnsupportedFormat),
    };
    match parsed {
        Ok(g) => {
            let mut g = g;
            apply_default_styles(&mut g);
            Ok(g)
        },
        Err(e) => Err(e),
    }
}

} // verus!
