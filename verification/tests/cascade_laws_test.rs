//! Concrete deletion scenarios for the library's guarantees: leaf records,
//! absent records, and the two social-graph cascades.

use mongowner::delete::safe_delete_by_key;
use mongowner::model::{FieldValue, Record};
use mongowner::registry::{CollectionDescriptor, IndexFieldType, OwnedBy, Registry};
use mongowner::store::MemStore;

fn social_registry() -> Registry {
    let mut reg = Registry::new();
    reg.register(&CollectionDescriptor {
        collection_name: "users".to_string(),
        index_field_name: "id".to_string(),
        index_field_type: IndexFieldType::Integer,
        is_data_subject: true,
        owned_by_edges: vec![],
    })
    .expect("users");
    reg.register(&CollectionDescriptor {
        collection_name: "posts".to_string(),
        index_field_name: "id".to_string(),
        index_field_type: IndexFieldType::Integer,
        is_data_subject: false,
        owned_by_edges: vec![OwnedBy {
            owner_collection: "users".to_string(),
            owner_key_field: "id".to_string(),
            local_field: "posted_by".to_string(),
        }],
    })
    .expect("posts");
    reg.register(&CollectionDescriptor {
        collection_name: "comments".to_string(),
        index_field_name: "id".to_string(),
        index_field_type: IndexFieldType::Integer,
        is_data_subject: false,
        owned_by_edges: vec![OwnedBy {
            owner_collection: "posts".to_string(),
            owner_key_field: "id".to_string(),
            local_field: "parent_post".to_string(),
        }],
    })
    .expect("comments");
    reg
}

fn user_record(id: u64) -> Record {
    Record {
        fields: vec![("id".to_string(), FieldValue::IntVal(id))],
    }
}

fn post_record(id: u64, posted_by: u64) -> Record {
    Record {
        fields: vec![
            ("id".to_string(), FieldValue::IntVal(id)),
            ("posted_by".to_string(), FieldValue::IntVal(posted_by)),
        ],
    }
}

fn comment_record(id: u64, parent_post: u64) -> Record {
    Record {
        fields: vec![
            ("id".to_string(), FieldValue::IntVal(id)),
            ("parent_post".to_string(), FieldValue::IntVal(parent_post)),
        ],
    }
}

fn delete_by_id(reg: &Registry, store: &mut MemStore, collection: &str, id: u64) {
    safe_delete_by_key(reg, store, collection, "id", &FieldValue::IntVal(id))
        .expect("Error safe deleting");
}

// A record whose collection owns nothing: deleting it deletes exactly one
// document and touches no other collection.
#[test]
fn delete_leaf_record_touches_nothing_else() {
    let mut reg = Registry::new();
    reg.register(&CollectionDescriptor {
        collection_name: "standalone".to_string(),
        index_field_name: "id".to_string(),
        index_field_type: IndexFieldType::Integer,
        is_data_subject: true,
        owned_by_edges: vec![],
    })
    .expect("standalone");
    let mut db = MemStore::new();
    db.insert_record("standalone", user_record(1));
    db.insert_record("standalone", user_record(2));
    delete_by_id(&reg, &mut db, "standalone", 1);
    assert_eq!(1, db.count_records("standalone"));
}

// Deleting an already-nonexistent record's index value is a no-op, not an
// error.
#[test]
fn delete_absent_record_is_noop() {
    let reg = social_registry();
    let mut db = MemStore::new();
    db.insert_record("users", user_record(0));
    db.insert_record("posts", post_record(0, 0));
    db.insert_record("comments", comment_record(0, 0));

    // user 42 does not exist and owns nothing
    delete_by_id(&reg, &mut db, "users", 42);

    assert_eq!(1, db.count_records("users"));
    assert_eq!(1, db.count_records("posts"));
    assert_eq!(1, db.count_records("comments"));
}

// 1 user owns 10 posts; each of 2 specific posts owns 100 comments (200
// total), the remaining posts own none.  Deleting the user empties all
// three collections.
#[test]
fn delete_user_with_two_commented_posts() {
    let reg = social_registry();
    let mut db = MemStore::new();
    db.insert_record("users", user_record(0));
    for p in 0..10 {
        db.insert_record("posts", post_record(p, 0));
    }
    for c in 0..100 {
        db.insert_record("comments", comment_record(c, 4));
    }
    for c in 100..200 {
        db.insert_record("comments", comment_record(c, 7));
    }
    assert_eq!(200, db.count_records("comments"));

    delete_by_id(&reg, &mut db, "users", 0);

    assert_eq!(0, db.count_records("users"));
    assert_eq!(0, db.count_records("posts"));
    assert_eq!(0, db.count_records("comments"));
}

// 2 users; each owns 5 posts; comments split across the posts of each.
// Deleting user A leaves user B, B's posts, and exactly the comments
// attached to B's posts.
#[test]
fn delete_one_of_two_users() {
    let reg = social_registry();
    let mut db = MemStore::new();
    db.insert_record("users", user_record(0));
    db.insert_record("users", user_record(1));
    for p in 0..5 {
        db.insert_record("posts", post_record(p, 0));
    }
    for p in 5..10 {
        db.insert_record("posts", post_record(p, 1));
    }
    // 30 comments on A's post 2, 70 on B's post 7
    for c in 0..30 {
        db.insert_record("comments", comment_record(c, 2));
    }
    for c in 30..100 {
        db.insert_record("comments", comment_record(c, 7));
    }

    delete_by_id(&reg, &mut db, "users", 0);

    assert_eq!(1, db.count_records("users"));
    assert_eq!(5, db.count_records("posts"));
    assert_eq!(70, db.count_records("comments"));
}

// A cascade that reaches a document lacking its collection's index field
// reports a typed failure instead of deleting blindly.
#[test]
fn delete_reports_malformed_document() {
    let reg = social_registry();
    let mut db = MemStore::new();
    db.insert_record("users", user_record(0));
    // a post document that lacks the "id" field entirely
    db.insert_record(
        "posts",
        Record {
            fields: vec![("posted_by".to_string(), FieldValue::IntVal(0))],
        },
    );
    let r = safe_delete_by_key(&reg, &mut db, "users", "id", &FieldValue::IntVal(0));
    assert!(matches!(
        r,
        Err(mongowner::delete::DeleteError::MissingIndexField { .. })
    ));
}
