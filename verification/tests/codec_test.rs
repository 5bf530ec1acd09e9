//! Graph serialization round trips and rejection of malformed input.

use mongowner::codec::{deserialize_graph, serialize_graph};
use mongowner::graph::{OwnEdge, OwnershipGraph};

fn social_graph() -> OwnershipGraph {
    let mut g = OwnershipGraph::new();
    g.add_edge(
        "posts",
        "users",
        OwnEdge { owner_index: "user_id".to_string(), owned_field: "posted_by".to_string() },
    )
    .expect("posts edge");
    g.add_edge(
        "comments",
        "posts",
        OwnEdge { owner_index: "post_id".to_string(), owned_field: "parent_post".to_string() },
    )
    .expect("comments edge");
    g.add_edge(
        "comments",
        "users",
        OwnEdge { owner_index: "user_id".to_string(), owned_field: "commented_by".to_string() },
    )
    .expect("comments user edge");
    g
}

fn incoming_pairs(g: &OwnershipGraph, coll: &str) -> Vec<(String, String, String)> {
    g.edges_incoming(coll)
        .into_iter()
        .map(|e| (e.owned, e.label.owner_index, e.label.owned_field))
        .collect()
}

// Serializing then deserializing yields a graph with identical
// `edges_incoming` results for every node of the original.
#[test]
fn round_trip_preserves_edges_incoming() {
    let g = social_graph();
    let text = serialize_graph(&g);
    let g2 = deserialize_graph(text.as_str()).expect("round trip");
    for coll in ["users", "posts", "comments"] {
        assert_eq!(incoming_pairs(&g, coll), incoming_pairs(&g2, coll));
    }
    // and the re-serialized form is identical text
    assert_eq!(text, serialize_graph(&g2));
}

#[test]
fn round_trip_empty_graph() {
    let g = OwnershipGraph::new();
    let text = serialize_graph(&g);
    assert_eq!(text, "0:0:");
    let g2 = deserialize_graph(text.as_str()).expect("round trip");
    assert_eq!(g2.node_count(), 0);
    assert_eq!(g2.edge_count(), 0);
}

#[test]
fn serialized_form_is_length_prefixed() {
    let mut g = OwnershipGraph::new();
    g.add_edge(
        "b",
        "a",
        OwnEdge { owner_index: "id".to_string(), owned_field: "fk".to_string() },
    )
    .expect("edge");
    let text = serialize_graph(&g);
    assert_eq!(text, "2:1:b1:a1:1:b1:a2:id2:fk");
}

#[test]
fn deserialize_rejects_malformed_text() {
    assert!(deserialize_graph("").is_none());
    assert!(deserialize_graph("hello").is_none());
    assert!(deserialize_graph("2:1:a").is_none());
    assert!(deserialize_graph("0:0:trailing").is_none());
    assert!(deserialize_graph("99999999999999999999999:").is_none());
}

#[test]
fn deserialize_rejects_duplicate_nodes() {
    // two nodes with the same name, no edges
    assert!(deserialize_graph("2:1:a1:a0:").is_none());
}

#[test]
fn deserialize_rejects_dangling_edge() {
    // an edge whose owner never appears as a node
    assert!(deserialize_graph("1:1:b1:1:b1:a2:id2:fk").is_none());
}

#[test]
fn deserialize_rejects_encoded_cycle() {
    // nodes a and b with edges a -> b and b -> a
    let text = "2:1:a1:b2:1:a1:b2:id2:fk1:b1:a2:id2:fk";
    assert!(deserialize_graph(text).is_none());
}
