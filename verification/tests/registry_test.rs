//! Registration, validation and cycle-rejection scenarios.

use mongowner::graph::{OwnEdge, OwnershipGraph};
use mongowner::registry::{
    CollectionDescriptor, IndexFieldType, OwnedBy, Registry, SchemaAnnotations, SchemaError,
};

fn plain_descriptor(
    collection: &str,
    index_field: &str,
    is_data_subject: bool,
    edges: Vec<(&str, &str, &str)>,
) -> CollectionDescriptor {
    CollectionDescriptor {
        collection_name: collection.to_string(),
        index_field_name: index_field.to_string(),
        index_field_type: IndexFieldType::Integer,
        is_data_subject,
        owned_by_edges: edges
            .into_iter()
            .map(|(owner, key, local)| OwnedBy {
                owner_collection: owner.to_string(),
                owner_key_field: key.to_string(),
                local_field: local.to_string(),
            })
            .collect(),
    }
}

fn incoming_pairs(g: &OwnershipGraph, coll: &str) -> Vec<(String, String, String)> {
    g.edges_incoming(coll)
        .into_iter()
        .map(|e| (e.owned, e.label.owner_index, e.label.owned_field))
        .collect()
}

#[test]
fn register_missing_collection_name() {
    let mut reg = Registry::new();
    let d = plain_descriptor("", "id", true, vec![]);
    assert!(matches!(reg.register(&d), Err(SchemaError::MissingCollectionName)));
}

#[test]
fn register_missing_index_field() {
    let mut reg = Registry::new();
    let d = plain_descriptor("users", "", true, vec![]);
    assert!(matches!(reg.register(&d), Err(SchemaError::MissingIndexField)));
}

#[test]
fn register_data_subject_with_owner() {
    let mut reg = Registry::new();
    let d = plain_descriptor("users", "id", true, vec![("groups", "id", "group")]);
    assert!(matches!(reg.register(&d), Err(SchemaError::InvalidOwnershipDeclaration)));
}

#[test]
fn register_non_subject_without_owner() {
    let mut reg = Registry::new();
    let d = plain_descriptor("posts", "id", false, vec![]);
    assert!(matches!(reg.register(&d), Err(SchemaError::InvalidOwnershipDeclaration)));
}

#[test]
fn register_empty_owner_reference() {
    let mut reg = Registry::new();
    let d = plain_descriptor("posts", "id", false, vec![("", "id", "posted_by")]);
    assert!(matches!(reg.register(&d), Err(SchemaError::InvalidOwnershipDeclaration)));
    let d2 = plain_descriptor("posts", "id", false, vec![("users", "", "posted_by")]);
    assert!(matches!(reg.register(&d2), Err(SchemaError::InvalidOwnershipDeclaration)));
}

// Acyclic declarations register; a cycle-closing declaration is refused and
// leaves the graph exactly as it was.
#[test]
fn register_cycle_rolls_back() {
    let mut reg = Registry::new();
    reg.register(&plain_descriptor("a", "id", true, vec![])).expect("a");
    reg.register(&plain_descriptor("b", "id", false, vec![("a", "id", "a_ref")])).expect("b");
    reg.register(&plain_descriptor("c", "id", false, vec![("b", "id", "b_ref")])).expect("c");

    let before = mongowner::codec::serialize_graph(reg.graph());

    // a owned by c would close the cycle c -> b -> a -> c
    let bad = plain_descriptor("a", "id", false, vec![("c", "id", "c_ref")]);
    match reg.register(&bad) {
        Err(SchemaError::OwnershipCycle { from, to }) => {
            assert_eq!(from, "a");
            assert_eq!(to, "c");
        },
        _ => panic!("expected a cycle rejection"),
    }

    let after = mongowner::codec::serialize_graph(reg.graph());
    assert_eq!(before, after);
}

#[test]
fn register_self_loop_refused() {
    let mut reg = Registry::new();
    let d = plain_descriptor("loops", "id", false, vec![("loops", "id", "parent")]);
    assert!(matches!(reg.register(&d), Err(SchemaError::OwnershipCycle { .. })));
    assert_eq!(reg.graph().edges_incoming("loops").len(), 0);
}

#[test]
fn edges_incoming_reports_owned_side() {
    let mut reg = Registry::new();
    reg.register(&plain_descriptor("users", "id", true, vec![])).expect("users");
    reg.register(&plain_descriptor("posts", "id", false, vec![("users", "id", "posted_by")]))
        .expect("posts");
    reg.register(
        &plain_descriptor(
            "comments",
            "id",
            false,
            vec![("users", "id", "commented_by"), ("posts", "id", "parent_post")],
        ),
    )
    .expect("comments");

    let into_users = incoming_pairs(reg.graph(), "users");
    assert_eq!(
        into_users,
        vec![
            ("posts".to_string(), "id".to_string(), "posted_by".to_string()),
            ("comments".to_string(), "id".to_string(), "commented_by".to_string()),
        ]
    );
    let into_posts = incoming_pairs(reg.graph(), "posts");
    assert_eq!(
        into_posts,
        vec![("comments".to_string(), "id".to_string(), "parent_post".to_string())]
    );
    assert_eq!(incoming_pairs(reg.graph(), "comments").len(), 0);
}

#[test]
fn registry_records_index_fields() {
    let mut reg = Registry::new();
    reg.register(&plain_descriptor("users", "user_id", true, vec![])).expect("users");
    reg.register(&plain_descriptor("posts", "post_id", false, vec![("users", "user_id", "by")]))
        .expect("posts");
    assert_eq!(reg.index_field_of("users").map(|s| s.as_str()), Some("user_id"));
    assert_eq!(reg.index_field_of("posts").map(|s| s.as_str()), Some("post_id"));
    assert!(reg.index_field_of("comments").is_none());
}

#[test]
fn graph_add_edge_directly() {
    let mut g = OwnershipGraph::new();
    g.add_edge(
        "posts",
        "users",
        OwnEdge { owner_index: "user_id".to_string(), owned_field: "posted_by".to_string() },
    )
    .expect("first edge");
    let r = g.add_edge(
        "users",
        "posts",
        OwnEdge { owner_index: "post_id".to_string(), owned_field: "avatar_post".to_string() },
    );
    match r {
        Err(mongowner::graph::GraphError::CycleDetected { from, to }) => {
            assert_eq!(from, "users");
            assert_eq!(to, "posts");
        },
        _ => panic!("expected a cycle rejection"),
    }
    // the rejected edge left the graph unchanged
    assert_eq!(g.edges_incoming("users").len(), 1);
    assert_eq!(g.edges_incoming("posts").len(), 0);
}

// A collection only ever named as an owner still becomes a graph node.
#[test]
fn forward_owner_reference_creates_node() {
    let mut reg = Registry::new();
    reg.register(&plain_descriptor("posts", "id", false, vec![("users", "id", "posted_by")]))
        .expect("posts");
    assert_eq!(reg.graph().node_count(), 2);
    assert_eq!(incoming_pairs(reg.graph(), "users").len(), 1);
}

#[test]
fn schema_annotation_names() {
    assert_eq!(SchemaAnnotations::Index.as_str(), "index");
    assert_eq!(SchemaAnnotations::OwnedBy.as_str(), "owned_by");
    assert_eq!(SchemaAnnotations::CollectionName.as_str(), "collection");
    assert_eq!(SchemaAnnotations::DataSubject.as_str(), "data_subject");
}
