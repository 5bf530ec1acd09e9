//! Cascade-delete scenarios over a set of schemas meant to encompass
//! different ownership relations and structures.

use mongowner::delete::safe_delete_by_key;
use mongowner::model::{FieldValue, Record};
use mongowner::registry::{CollectionDescriptor, IndexFieldType, OwnedBy, Registry};
use mongowner::store::MemStore;

fn owned_by(owner: &str, owner_key: &str, local: &str) -> OwnedBy {
    OwnedBy {
        owner_collection: owner.to_string(),
        owner_key_field: owner_key.to_string(),
        local_field: local.to_string(),
    }
}

fn descriptor(
    collection: &str,
    index_field: &str,
    is_data_subject: bool,
    edges: Vec<OwnedBy>,
) -> CollectionDescriptor {
    CollectionDescriptor {
        collection_name: collection.to_string(),
        index_field_name: index_field.to_string(),
        index_field_type: IndexFieldType::Integer,
        is_data_subject,
        owned_by_edges: edges,
    }
}

/// The test schema registry: users own posts, comments, productives and
/// attachments; media moderators own moderation posts and resources.
fn test_registry() -> Registry {
    let mut reg = Registry::new();
    reg.register(&descriptor("users", "id", true, vec![])).expect("users");
    reg.register(&descriptor("posts", "id", false, vec![owned_by("users", "id", "posted_by")]))
        .expect("posts");
    reg.register(
        &descriptor(
            "comments",
            "id",
            false,
            vec![owned_by("users", "id", "commented_by"), owned_by("posts", "id", "parent_post")],
        ),
    )
    .expect("comments");
    reg.register(
        &descriptor(
            "productives",
            "id",
            false,
            vec![owned_by("users", "id", "rated_by"), owned_by("comments", "id", "comment")],
        ),
    )
    .expect("productives");
    reg.register(
        &descriptor(
            "attachments",
            "resource_id",
            false,
            vec![
                owned_by("users", "id", "user"),
                owned_by("posts", "id", "post"),
                owned_by("comments", "id", "comment"),
            ],
        ),
    )
    .expect("attachments");
    reg.register(&descriptor("mediamods", "id", true, vec![])).expect("mediamods");
    reg.register(
        &descriptor("modposts", "id", false, vec![owned_by("mediamods", "id", "moderator")]),
    )
    .expect("modposts");
    reg.register(
        &descriptor("modresources", "id", false, vec![owned_by("mediamods", "id", "moderator")]),
    )
    .expect("modresources");
    reg.register(
        &descriptor("mresource1s", "id", false, vec![owned_by("modresources", "id", "parent_res")]),
    )
    .expect("mresource1s");
    reg.register(
        &descriptor("mresources2", "id", false, vec![owned_by("modresources", "id", "parent_res")]),
    )
    .expect("mresources2");
    reg.register(
        &descriptor("mresources3", "id", false, vec![owned_by("modresources", "id", "parent_res")]),
    )
    .expect("mresources3");
    reg
}

fn int_field(name: &str, value: u64) -> (String, FieldValue) {
    (name.to_string(), FieldValue::IntVal(value))
}

fn str_field(name: &str, value: &str) -> (String, FieldValue) {
    (name.to_string(), FieldValue::StrVal(value.to_string()))
}

fn insert_user(store: &mut MemStore, user_id: u64) {
    store.insert_record(
        "users",
        Record {
            fields: vec![
                int_field("id", user_id),
                str_field("username", "someuser"),
                str_field("name", "Some User"),
                str_field("email", "someuser@example.com"),
            ],
        },
    );
}

fn insert_posts(store: &mut MemStore, owner_id: u64, count: u64) {
    for n in 0..count {
        store.insert_record(
            "posts",
            Record {
                fields: vec![
                    int_field("id", n),
                    int_field("posted_by", owner_id),
                    str_field("text", "a paragraph of text"),
                    str_field("date", "Dec 13, 2023"),
                ],
            },
        );
    }
}

fn insert_comments(store: &mut MemStore, commented_by: u64, commented_on: u64, count: u64) {
    for n in 0..count {
        store.insert_record(
            "comments",
            Record {
                fields: vec![
                    int_field("id", n),
                    int_field("parent_post", commented_on),
                    int_field("commented_by", commented_by),
                    str_field("text", "word"),
                    str_field("date", "Dec 14, 2023"),
                ],
            },
        );
    }
}

fn insert_productives(store: &mut MemStore, rated_by: u64, comment: u64, count: u64) {
    for n in 0..count {
        store.insert_record(
            "productives",
            Record {
                fields: vec![
                    int_field("id", n),
                    int_field("rated_by", rated_by),
                    int_field("comment", comment),
                ],
            },
        );
    }
}

fn delete_by_id(reg: &Registry, store: &mut MemStore, collection: &str, id: u64) {
    safe_delete_by_key(reg, store, collection, "id", &FieldValue::IntVal(id))
        .expect("Error safe deleting");
}

// tests if safe_delete works when 1 user owns 1 post
#[test]
fn safe_delete_single() {
    let reg = test_registry();
    let mut db = MemStore::new();
    insert_user(&mut db, 0);

    insert_posts(&mut db, 0, 10);
    assert_eq!(10, db.count_records("posts"));

    delete_by_id(&reg, &mut db, "users", 0);

    assert_eq!(0, db.count_records("users"));
    assert_eq!(0, db.count_records("posts"));
}

// Comment owned by Post owned by User
#[test]
fn safe_delete_post_comment() {
    let reg = test_registry();
    let mut db = MemStore::new();
    let user_id = 0;
    insert_user(&mut db, user_id);

    insert_posts(&mut db, user_id, 10);
    assert_eq!(10, db.count_records("posts"));

    insert_comments(&mut db, user_id, 2, 100);
    assert_eq!(100, db.count_records("comments"));

    delete_by_id(&reg, &mut db, "users", user_id);

    assert_eq!(0, db.count_records("users"));
    assert_eq!(0, db.count_records("posts"));
    assert_eq!(0, db.count_records("comments"));
}

// 2 Users, UserA owns Posts [0, 4] and UserB owns Posts [5, 9]
// Post2 owns Comments [0, 39] and Post7 Owns Comments [40, 99]
#[test]
fn safe_delete_multiple_users() {
    let reg = test_registry();
    let mut db = MemStore::new();
    let a_id = 0;
    insert_user(&mut db, a_id);
    let b_id = 1;
    insert_user(&mut db, a_id);

    insert_posts(&mut db, a_id, 5);
    insert_posts(&mut db, b_id, 5);
    assert_eq!(10, db.count_records("posts"));

    insert_comments(&mut db, 3, 2, 40);
    insert_comments(&mut db, 3, 7, 60);
    assert_eq!(100, db.count_records("comments"));

    delete_by_id(&reg, &mut db, "users", a_id);

    assert_eq!(1, db.count_records("users"));
    assert_eq!(5, db.count_records("posts"));
    assert_eq!(60, db.count_records("comments"));
}

// Comment owned by Post owned by User
#[test]
fn safe_delete_multiple_owners() {
    let reg = test_registry();
    let mut db = MemStore::new();
    let user_id = 0;
    insert_user(&mut db, user_id);

    // User0 owns 10 posts with ids in range [0, 9]
    insert_posts(&mut db, user_id, 10);
    assert_eq!(10, db.count_records("posts"));

    // User0 owns 100 comments on Post100
    insert_comments(&mut db, user_id, 100, 100);
    assert_eq!(100, db.count_records("comments"));

    // User1 owns 100 comments on Post2
    insert_comments(&mut db, 1, 2, 100);
    assert_eq!(200, db.count_records("comments"));

    // User1 owns 100 comments on Post11
    insert_comments(&mut db, 1, 11, 100);
    assert_eq!(300, db.count_records("comments"));
    delete_by_id(&reg, &mut db, "users", user_id);

    assert_eq!(0, db.count_records("users"));
    assert_eq!(0, db.count_records("posts"));

    // all comments belonging to User0 should be deleted + all comments belonging to Posts by User0
    assert_eq!(100, db.count_records("comments"));
}

// Comment owned by Post owned by User
#[test]
fn safe_delete_post() {
    let reg = test_registry();
    let mut db = MemStore::new();
    let user_id = 0;
    insert_user(&mut db, user_id);

    // User0 owns 10 posts with ids in range [0, 9]
    insert_posts(&mut db, user_id, 10);
    assert_eq!(10, db.count_records("posts"));

    // User0 owns 100 comments on Post2
    insert_comments(&mut db, 0, 2, 100);
    assert_eq!(100, db.count_records("comments"));

    insert_comments(&mut db, 0, 3, 100);
    assert_eq!(200, db.count_records("comments"));

    // safe_deleting Post2
    delete_by_id(&reg, &mut db, "posts", 2);

    assert_eq!(1, db.count_records("users"));
    assert_eq!(9, db.count_records("posts"));

    // all comments belonging to User0 should be deleted + all comments belonging to Posts by User0
    assert_eq!(100, db.count_records("comments"));
}

#[test]
fn safe_delete_large() {
    let reg = test_registry();
    let mut db = MemStore::new();
    let user_id = 0;
    insert_user(&mut db, user_id);

    // User0 owns 10k posts with ids in range [0, 9999]
    insert_posts(&mut db, user_id, 10000);
    assert_eq!(10000, db.count_records("posts"));

    // User0 owns 100 comments on Post2
    insert_comments(&mut db, 0, 2, 100);
    assert_eq!(100, db.count_records("comments"));

    insert_comments(&mut db, 0, 3, 100);
    assert_eq!(200, db.count_records("comments"));

    // use productives
    insert_productives(&mut db, 0, 2, 100);
    let _ = reg;
}
