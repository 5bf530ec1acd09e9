//! The social record types driven end to end: registration, insertion, and
//! a generic `safe_delete` through the `Schemable` trait.

use mongowner::delete::{Schemable, safe_delete};
use mongowner::registry::Registry;
use mongowner::schemas::{Comment, Post, User};
use mongowner::store::MemStore;

fn sample_user(id: u128) -> User {
    User {
        user_id: id,
        username: "alice".to_string(),
        first_name: "Alice".to_string(),
        last_name: "Bob".to_string(),
        age: 20,
        email: "alice_bob@example.edu".to_string(),
    }
}

fn sample_post(id: u128, by: u128) -> Post {
    Post {
        post_id: id,
        text: "hello".to_string(),
        posted_by: by,
        date: "Dec 13, 2023".to_string(),
    }
}

fn sample_comment(id: u128, on: u128) -> Comment {
    Comment {
        comment_id: id,
        text: "nice".to_string(),
        parent_post: on,
        date: "Dec 14, 2023".to_string(),
    }
}

fn social_registry() -> Registry {
    let mut reg = Registry::new();
    reg.register(&User::schema_descriptor()).expect("users");
    reg.register(&Post::schema_descriptor()).expect("posts");
    reg.register(&Comment::schema_descriptor()).expect("comments");
    reg
}

#[test]
fn schemable_names() {
    assert_eq!(<User as Schemable>::struct_name(), "User");
    assert_eq!(<User as Schemable>::collection_name(), "users");
    assert_eq!(<User as Schemable>::index_name(), "user_id");
    assert_eq!(<Post as Schemable>::collection_name(), "posts");
    assert_eq!(<Post as Schemable>::index_name(), "post_id");
    assert_eq!(<Comment as Schemable>::collection_name(), "comments");
    assert_eq!(<Comment as Schemable>::index_name(), "comment_id");
}

#[test]
fn safe_delete_user_cascades_through_schemables() {
    let reg = social_registry();
    let mut db = MemStore::new();
    let user = sample_user(7);
    db.insert_record("users", user.to_record());
    for p in 0..4u128 {
        db.insert_record("posts", sample_post(p, 7).to_record());
    }
    // comments hang off posts 1 and 2
    for c in 0..10u128 {
        db.insert_record("comments", sample_comment(c, 1).to_record());
    }
    for c in 10..25u128 {
        db.insert_record("comments", sample_comment(c, 2).to_record());
    }
    assert_eq!(1, db.count_records("users"));
    assert_eq!(4, db.count_records("posts"));
    assert_eq!(25, db.count_records("comments"));

    safe_delete(user, &reg, &mut db).expect("Error safe deleting");

    assert_eq!(0, db.count_records("users"));
    assert_eq!(0, db.count_records("posts"));
    assert_eq!(0, db.count_records("comments"));
}

#[test]
fn safe_delete_post_keeps_owner_and_siblings() {
    let reg = social_registry();
    let mut db = MemStore::new();
    db.insert_record("users", sample_user(7).to_record());
    for p in 0..4u128 {
        db.insert_record("posts", sample_post(p, 7).to_record());
    }
    for c in 0..10u128 {
        db.insert_record("comments", sample_comment(c, 1).to_record());
    }
    for c in 10..25u128 {
        db.insert_record("comments", sample_comment(c, 2).to_record());
    }

    safe_delete(sample_post(1, 7), &reg, &mut db).expect("Error safe deleting");

    assert_eq!(1, db.count_records("users"));
    assert_eq!(3, db.count_records("posts"));
    assert_eq!(15, db.count_records("comments"));
}

#[test]
fn record_field_lookup() {
    let rec = sample_post(3, 9).to_record();
    match rec.get_field("posted_by") {
        Some(mongowner::model::FieldValue::UuidVal(v)) => assert_eq!(*v, 9),
        _ => panic!("posted_by should be a UUID value"),
    }
    assert!(rec.get_field("missing").is_none());
}
