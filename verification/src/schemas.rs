//! The social data model: record types wired into the ownership framework.
//!
//! A `User` is a data subject; a `Post` is owned by its author; a `Comment`
//! is owned by its parent post.  Each type implements [`Schemable`] and
//! offers the [`CollectionDescriptor`] it registers at startup.  UUID keys
//! are carried as their 128-bit values.

use vstd::prelude::*;
use crate::delete::Schemable;
use crate::model::{FieldValue, FieldValueModel, Record};
use crate::registry::{CollectionDescriptor, IndexFieldType, OwnedBy};

verus! {

/// A user: a data subject, the root of its ownership tree.
pub struct User {
    pub user_id: u128,
    pub username: String,
    pub first_name: String,
    pub last_name: String,
    pub age: u8,
    pub email: String,
}

/// A post, owned by the user who posted it.
pub struct Post {
    pub post_id: u128,
    pub text: String,
    pub posted_by: u128,
    pub date: String,
}

/// A comment, owned by the post it was written under.
pub struct Comment {
    pub comment_id: u128,
    pub text: String,
    pub parent_post: u128,
    pub date: String,
}

impl Schemable for User {
    open spec fn spec_collection_name() -> Seq<char> {
        "users"@
    }

    open spec fn spec_index_name() -> Seq<char> {
        "user_id"@
    }

    open spec fn spec_index_value(&self) -> FieldValueModel {
        FieldValueModel::UuidV(self.user_id)
    }

    fn struct_name() -> (r: &'static str) {
        "User"
    }

    fn collection_name() -> (r: &'static str) {
        "users"
    }

    fn index_name() -> (r: &'static str) {
        "user_id"
    }

    fn index_value(&self) -> (v: FieldValue) {
        FieldValue::UuidVal(self.user_id)
    }

    fn cascade_delete(&self) {
    }
}

impl Schemable for Post {
    open spec fn spec_collection_name() -> Seq<char> {
        "posts"@
    }

    open spec fn spec_index_name() -> Seq<char> {
        "post_id"@
    }

    open spec fn spec_index_value(&self) -> FieldValueModel {
        FieldValueModel::UuidV(self.post_id)
    }

    fn struct_name() -> (r: &'static str) {
        "Post"
    }

    fn collection_name() -> (r: &'static str) {
        "posts"
    }

    fn index_name() -> (r: &'static str) {
        "post_id"
    }

    fn index_value(&self) -> (v: FieldValue) {
        FieldValue::UuidVal(self.post_id)
    }

    fn cascade_delete(&self) {
    }
}

impl Schemable for Comment {
    open spec fn spec_collection_name() -> Seq<char> {
        "comments"@
    }

    open spec fn spec_index_name() -> Seq<char> {
        "comment_id"@
    }

    open spec fn spec_index_value(&self) -> FieldValueModel {
        FieldValueModel::UuidV(self.comment_id)
    }

    fn struct_name() -> (r: &'static str) {
        "Comment"
    }

    fn collection_name() -> (r: &'static str) {
        "comments"
    }

    fn index_name() -> (r: &'static str) {
        "comment_id"
    }

    fn index_value(&self) -> (v: FieldValue) {
        FieldValue::UuidVal(self.comment_id)
    }

    fn cascade_delete(&self) {
    }
}

impl User {
    /// The descriptor this record type registers at startup.
    pub fn schema_descriptor() -> (d: CollectionDescriptor)
        ensures
            d@.collection_name == "users"@,
            d@.index_field_name == "user_id"@,
            d@.is_data_subject,
            d@.owned_by_edges.len() == 0,
    {
        let d = CollectionDescriptor {
            collection_name: "users".to_owned(),
            index_field_name: "user_id".to_owned(),
            index_field_type: IndexFieldType::Uuid,
            is_data_subject: true,
            owned_by_edges: Vec::new(),
        };
        proof {
            assert(d@.owned_by_edges =~= Seq::<crate::registry::OwnedByModel>::empty());
        }
        d
    }

    /// This record as a store document.
    pub fn to_record(&self) -> (r: Record)
        ensures
            r@ == seq![
                ("user_id"@, FieldValueModel::UuidV(self.user_id)),
                ("username"@, FieldValueModel::StrV(self.username@)),
                ("first_name"@, FieldValueModel::StrV(self.first_name@)),
                ("last_name"@, FieldValueModel::StrV(self.last_name@)),
                ("age"@, FieldValueModel::IntV(self.age as u64)),
                ("email"@, FieldValueModel::StrV(self.email@)),
            ],
    {
        let mut fields: Vec<(String, FieldValue)> = Vec::new();
        fields.push(("user_id".to_owned(), FieldValue::UuidVal(self.user_id)));
        fields.push(("username".to_owned(), FieldValue::StrVal(self.username.clone())));
        fields.push(("first_name".to_owned(), FieldValue::StrVal(self.first_name.clone())));
        fields.push(("last_name".to_owned(), FieldValue::StrVal(self.last_name.clone())));
        fields.push(("age".to_owned(), FieldValue::IntVal(self.age as u64)));
        fields.push(("email".to_owned(), FieldValue::StrVal(self.email.clone())));
        let r = Record { fields };
        proof {
            assert(r@ =~= seq![
                ("user_id"@, FieldValueModel::UuidV(self.user_id)),
                ("username"@, FieldValueModel::StrV(self.username@)),
                ("first_name"@, FieldValueModel::StrV(self.first_name@)),
                ("last_name"@, FieldValueModel::StrV(self.last_name@)),
                ("age"@, FieldValueModel::IntV(self.age as u64)),
                ("email"@, FieldValueModel::StrV(self.email@)),
            ]);
        }
        r
    }
}

impl Post {
    /// The descriptor this record type registers at startup.
    pub fn schema_descriptor() -> (d: CollectionDescriptor)
        ensures
            d@.collection_name == "posts"@,
            d@.index_field_name == "post_id"@,
            !d@.is_data_subject,
            d@.owned_by_edges.len() == 1,
            d@.owned_by_edges[0].owner_collection == "users"@,
            d@.owned_by_edges[0].owner_key_field == "user_id"@,
            d@.owned_by_edges[0].local_field == "posted_by"@,
    {
        let mut owned_by_edges: Vec<OwnedBy> = Vec::new();
        owned_by_edges.push(
            OwnedBy {
                owner_collection: "users".to_owned(),
                owner_key_field: "user_id".to_owned(),
                local_field: "posted_by".to_owned(),
            },
        );
        CollectionDescriptor {
            collection_name: "posts".to_owned(),
            index_field_name: "post_id".to_owned(),
            index_field_type: IndexFieldType::Uuid,
            is_data_subject: false,
            owned_by_edges,
        }
    }

    /// This record as a store document.
    pub fn to_record(&self) -> (r: Record)
        ensures
            r@ == seq![
                ("post_id"@, FieldValueModel::UuidV(self.post_id)),
                ("text"@, FieldValueModel::StrV(self.text@)),
                ("posted_by"@, FieldValueModel::UuidV(self.posted_by)),
                ("date"@, FieldValueModel::StrV(self.date@)),
            ],
    {
        let mut fields: Vec<(String, FieldValue)> = Vec::new();
        fields.push(("post_id".to_owned(), FieldValue::UuidVal(self.post_id)));
        fields.push(("text".to_owned(), FieldValue::StrVal(self.text.clone())));
        fields.push(("posted_by".to_owned(), FieldValue::UuidVal(self.posted_by)));
        fields.push(("date".to_owned(), FieldValue::StrVal(self.date.clone())));
        let r = Record { fields };
        proof {
            assert(r@ =~= seq![
                ("post_id"@, FieldValueModel::UuidV(self.post_id)),
                ("text"@, FieldValueModel::StrV(self.text@)),
                ("posted_by"@, FieldValueModel::UuidV(self.posted_by)),
                ("date"@, FieldValueModel::StrV(self.date@)),
            ]);
        }
        r
    }
}

impl Comment {
    /// The descriptor this record type registers at startup.
    pub fn schema_descriptor() -> (d: CollectionDescriptor)
        ensures
            d@.collection_name == "comments"@,
            d@.index_field_name == "comment_id"@,
            !d@.is_data_subject,
            d@.owned_by_edges.len() == 1,
            d@.owned_by_edges[0].owner_collection == "posts"@,
            d@.owned_by_edges[0].owner_key_field == "post_id"@,
            d@.owned_by_edges[0].local_field == "parent_post"@,
    {
        let mut owned_by_edges: Vec<OwnedBy> = Vec::new();
        owned_by_edges.push(
            OwnedBy {
                owner_collection: "posts".to_owned(),
                owner_key_field: "post_id".to_owned(),
                local_field: "parent_post".to_owned(),
            },
        );
        CollectionDescriptor {
            collection_name: "comments".to_owned(),
            index_field_name: "comment_id".to_owned(),
            index_field_type: IndexFieldType::Uuid,
            is_data_subject: false,
            owned_by_edges,
        }
    }

    /// This record as a store document.
    pub fn to_record(&self) -> (r: Record)
        ensures
            r@ == seq![
                ("comment_id"@, FieldValueModel::UuidV(self.comment_id)),
                ("text"@, FieldValueModel::StrV(self.text@)),
                ("parent_post"@, FieldValueModel::UuidV(self.parent_post)),
                ("date"@, FieldValueModel::StrV(self.date@)),
            ],
    {
        let mut fields: Vec<(String, FieldValue)> = Vec::new();
        fields.push(("comment_id".to_owned(), FieldValue::UuidVal(self.comment_id)));
        fields.push(("text".to_owned(), FieldValue::StrVal(self.text.clone())));
        fields.push(("parent_post".to_owned(), FieldValue::UuidVal(self.parent_post)));
        fields.push(("date".to_owned(), FieldValue::StrVal(self.date.clone())));
        let r = Record { fields };
        proof {
            assert(r@ =~= seq![
                ("comment_id"@, FieldValueModel::UuidV(self.comment_id)),
                ("text"@, FieldValueModel::StrV(self.text@)),
                ("parent_post"@, FieldValueModel::UuidV(self.parent_post)),
                ("date"@, FieldValueModel::StrV(self.date@)),
            ]);
        }
        r
    }
}

} // verus!
