use csvizmo_depgraph::algorithm::cluster::lpa::lpa;
use csvizmo_depgraph::emit::{emit, OutputFormat};
use csvizmo_depgraph::graph::{DepGraph, Edge, NodeInfo};

fn chain() -> DepGraph {
    DepGraph {
        nodes: [("a", "A"), ("b", "B"), ("c", "C")]
            .iter()
            .map(|(id, l)| (id.to_string(), NodeInfo::new(l)))
            .collect(),
        edges: vec![
            Edge { from: "a".into(), to: "b".into(), ..Default::default() },
            Edge { from: "b".into(), to: "c".into(), ..Default::default() },
        ],
        ..Default::default()
    }
}

#[test]
fn emit_dispatches_tree_and_pathlist() {
    let g = chain();
    assert_eq!(emit(OutputFormat::Tree, &g), "A\n\u{2514}\u{2500}\u{2500} B\n    \u{2514}\u{2500}\u{2500} C\n");
    assert_eq!(emit(OutputFormat::Pathlist, &g), "A/B/C\n");
    assert_eq!(emit(OutputFormat::Tgf, &g), csvizmo_depgraph::emit::tgf::emit(&g));
}

#[test]
fn lpa_seeded_keeps_every_node_once() {
    let g = chain();
    let r = lpa(&g, false, 10, Some(7));
    let total: usize = r.subgraphs.iter().map(|s| s.nodes.len()).sum();
    assert_eq!(total, 3);
    for (i, s) in r.subgraphs.iter().enumerate() {
        assert_eq!(s.id.as_deref(), Some(format!("cluster_{i}").as_str()));
    }
}

#[test]
fn lpa_unseeded_chain_is_one_cluster() {
    // a-b-c undirected: b adopts a's label 0, then c adopts 0
    let r = lpa(&chain(), false, 10, None);
    assert_eq!(r.subgraphs.len(), 1);
    assert!(r.edges.is_empty());
}
