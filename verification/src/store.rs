//! The document store adapter and an in-memory store.
//!
//! The cascade engine only depends on the [`DocumentStore`] contract: find
//! by one field, delete many by one field, delete one by one field.  Every
//! call commits independently; on a failed deletion some matching documents
//! may already be gone, and the contract says no more than that.
//! [`MemStore`] is a verified in-memory implementation, used by the tests;
//! a store backed by a real database implements the same trait outside the
//! verified crate.

use vstd::prelude::*;
use vstd::pervasive::VecAdditionalExecFns;
use crate::model::{
    FieldValue, Record, RecordModel, StoreModel, count_matching, deleted_from, filter_matching,
    lemma_count_matching_snoc, lemma_count_matching_zero, lemma_filter_snoc,
    lemma_remove_first_at, lemma_remove_first_noop, lemma_remove_snoc, rec_matches, rec_views,
    remove_first_match, remove_matching, seq_shrunk, str_eq,
};

verus! {

/// A failure reported by the backing store: the operation did not complete.
#[derive(Debug)]
pub struct StoreError {
    pub message: String,
}

/// The store interface the cascade engine consumes.
///
/// `sview` is the store's mathematical contents: a total map from collection
/// name to document sequence, a collection never written being empty.
pub trait DocumentStore: Sized {
    /// The mathematical contents of the store.  Implementations inside the
    /// verified crate give this a real definition; a store implemented
    /// outside it leaves the default, and nothing is then known of its
    /// contents.
    open spec fn sview(&self) -> StoreModel {
        Map::empty()
    }

    /// All documents of `collection` whose field `field` holds `value`, in
    /// collection order.  A read: the store is unchanged.
    fn find(&self, collection: &str, field: &str, value: &FieldValue) -> (r: Result<
        Vec<Record>,
        StoreError,
    >)
        ensures
            match r {
                Ok(docs) => rec_views(docs@) == filter_matching(
                    self.sview()[collection@],
                    field@,
                    value@,
                ),
                Err(_) => true,
            },
    ;

    /// Delete every document of `collection` whose field `field` holds
    /// `value`; on success the count of deleted documents is returned.  On
    /// failure, some matching documents of that collection may already have
    /// been deleted, and nothing else has changed.
    fn delete_many(&mut self, collection: &str, field: &str, value: &FieldValue) -> (r: Result<
        usize,
        StoreError,
    >)
        ensures
            match r {
                Ok(n) => final(self).sview() == old(self).sview().insert(
                    collection@,
                    remove_matching(old(self).sview()[collection@], field@, value@),
                ) && n == count_matching(old(self).sview()[collection@], field@, value@),
                Err(_) => {
                    &&& forall|c: Seq<char>|
                        c != collection@ ==> #[trigger] final(self).sview()[c] == old(
                            self,
                        ).sview()[c]
                    &&& seq_shrunk(
                        old(self).sview()[collection@],
                        final(self).sview()[collection@],
                    )
                    &&& forall|x: RecordModel|
                        deleted_from(
                            old(self).sview()[collection@],
                            final(self).sview()[collection@],
                            x,
                        ) ==> rec_matches(x, field@, value@)
                },
            },
    ;

    /// Delete the first document of `collection` whose field `field` holds
    /// `value`, if any; on success, whether a document was deleted.  On
    /// failure, at most one matching document of that collection may have
    /// been deleted, and nothing else has changed.
    fn delete_one(&mut self, collection: &str, field: &str, value: &FieldValue) -> (r: Result<
        bool,
        StoreError,
    >)
        ensures
            match r {
                Ok(b) => final(self).sview() == old(self).sview().insert(
                    collection@,
                    remove_first_match(old(self).sview()[collection@], field@, value@),
                ) && b == (count_matching(old(self).sview()[collection@], field@, value@) > 0),
                Err(_) => {
                    &&& forall|c: Seq<char>|
                        c != collection@ ==> #[trigger] final(self).sview()[c] == old(
                            self,
                        ).sview()[c]
                    &&& seq_shrunk(
                        old(self).sview()[collection@],
                        final(self).sview()[collection@],
                    )
                    &&& forall|x: RecordModel|
                        deleted_from(
                            old(self).sview()[collection@],
                            final(self).sview()[collection@],
                            x,
                        ) ==> rec_matches(x, field@, value@)
                },
            },
    ;
}

/// The documents of the first collection named `c`, or nothing.
pub open spec fn mem_lookup(cols: Seq<(String, Vec<Record>)>, c: Seq<char>) -> Seq<RecordModel>
    decreases cols.len(),
{
    if cols.len() == 0 {
        Seq::empty()
    } else if cols.first().0@ == c {
        rec_views(cols.first().1@)
    } else {
        mem_lookup(cols.drop_first(), c)
    }
}

/// Lookup ignores a prefix of collections with other names.
proof fn lemma_mem_lookup_skip(cols: Seq<(String, Vec<Record>)>, c: Seq<char>, i: int)
    requires
        0 <= i <= cols.len(),
        forall|j: int| 0 <= j < i ==> (#[trigger] cols[j]).0@ != c,
    ensures
        mem_lookup(cols, c) == mem_lookup(cols.skip(i), c),
    decreases i,
{
    if i > 0 {
        assert(cols.first() == cols[0]);
        assert(cols.drop_first().skip(i - 1) =~= cols.skip(i));
        assert(forall|j: int| 0 <= j < i - 1 ==> (#[trigger] cols.drop_first()[j]) == cols[j + 1]);
        lemma_mem_lookup_skip(cols.drop_first(), c, i - 1);
    } else {
        assert(cols.skip(0) =~= cols);
    }
}

/// Replacing the collection at position `i` by one of the same name only
/// changes lookups of that name, and changes them to the new documents when
/// `i` holds the name's first occurrence.
proof fn lemma_mem_lookup_update(
    cols: Seq<(String, Vec<Record>)>,
    i: int,
    p: (String, Vec<Record>),
)
    requires
        0 <= i < cols.len(),
        p.0@ == cols[i].0@,
    ensures
        forall|c: Seq<char>|
            c != p.0@ ==> #[trigger] mem_lookup(cols.update(i, p), c) == mem_lookup(cols, c),
        (forall|j: int| 0 <= j < i ==> (#[trigger] cols[j]).0@ != p.0@) ==> mem_lookup(
            cols.update(i, p),
            p.0@,
        ) == rec_views(p.1@),
    decreases i,
{
    let w = cols.update(i, p);
    if i == 0 {
        assert(w.first() == p);
        assert(cols.first() == cols[0]);
        assert(w.drop_first() =~= cols.drop_first());
    } else {
        assert(w.first() == cols[0]);
        assert(cols.first() == cols[0]);
        assert(w.drop_first() =~= cols.drop_first().update(i - 1, p));
        assert(cols.drop_first()[i - 1] == cols[i]);
        lemma_mem_lookup_update(cols.drop_first(), i - 1, p);
        assert forall|c: Seq<char>| c != p.0@ implies #[trigger] mem_lookup(w, c) == mem_lookup(
            cols,
            c,
        ) by {
            if cols[0].0@ != c {
                assert(mem_lookup(cols.drop_first().update(i - 1, p), c) == mem_lookup(
                    cols.drop_first(),
                    c,
                ));
            }
        }
        if forall|j: int| 0 <= j < i ==> (#[trigger] cols[j]).0@ != p.0@ {
            assert(cols[0].0@ != p.0@);
            assert(forall|j: int|
                0 <= j < i - 1 ==> (#[trigger] cols.drop_first()[j]).0@ != p.0@) by {
                assert(forall|j: int|
                    0 <= j < i - 1 ==> (#[trigger] cols.drop_first()[j]) == cols[j + 1]);
            }
        }
    }
}

/// Appending a new collection serves lookups of its name when the name was
/// absent, and no other lookups.
proof fn lemma_mem_lookup_snoc(
    cols: Seq<(String, Vec<Record>)>,
    p: (String, Vec<Record>),
    c: Seq<char>,
)
    requires
        forall|j: int| 0 <= j < cols.len() ==> (#[trigger] cols[j]).0@ != p.0@,
    ensures
        c == p.0@ ==> mem_lookup(cols.push(p), c) == rec_views(p.1@),
        c != p.0@ ==> mem_lookup(cols.push(p), c) == mem_lookup(cols, c),
    decreases cols.len(),
{
    if cols.len() == 0 {
        assert(cols.push(p).first() == p);
        assert(cols.push(p).drop_first() =~= cols);
    } else {
        assert(cols.push(p).first() == cols[0]);
        assert(cols.first() == cols[0]);
        assert(cols.push(p).drop_first() =~= cols.drop_first().push(p));
        assert(forall|j: int|
            0 <= j < cols.drop_first().len() ==> (#[trigger] cols.drop_first()[j]) == cols[j + 1]);
        lemma_mem_lookup_snoc(cols.drop_first(), p, c);
        if cols[0].0@ == c {
            assert(cols[0].0@ != p.0@);
        }
    }
}

/// A verified in-memory document store: named collections of documents, in
/// insertion order.
pub struct MemStore {
    collections: Vec<(String, Vec<Record>)>,
}

impl MemStore {
    /// An empty store.
    pub fn new() -> (s: MemStore)
        ensures
            forall|c: Seq<char>| (#[trigger] s.sview()[c]).len() == 0,
    {
        MemStore { collections: Vec::new() }
    }

    /// The position of the first collection named `collection`, if any.
    fn locate(&self, collection: &str) -> (r: Option<usize>)
        ensures
            match r {
                Some(i) => i < self.collections@.len() && self.collections@[i as int].0@
                    == collection@ && (forall|j: int|
                    0 <= j < i ==> (#[trigger] self.collections@[j]).0@ != collection@),
                None => forall|j: int|
                    0 <= j < self.collections@.len() ==> (#[trigger] self.collections@[j]).0@
                        != collection@,
            },
    {
        let n = self.collections.len();
        let mut i: usize = 0;
        while i < n
            invariant
                i <= n,
                n == self.collections.len(),
                forall|j: int| 0 <= j < i ==> (#[trigger] self.collections@[j]).0@ != collection@,
            decreases n - i,
        {
            if str_eq(self.collections[i].0.as_str(), collection) {
                return Some(i);
            }
            i = i + 1;
        }
        None
    }

    /// Append `doc` to `collection`, creating the collection when missing.
    pub fn insert_record(&mut self, collection: &str, doc: Record)
        ensures
            final(self).sview() == old(self).sview().insert(
                collection@,
                old(self).sview()[collection@].push(doc@),
            ),
    {
        let ghost cols0 = self.collections@;
        let ghost target = self.sview()[collection@];
        match self.locate(collection) {
            Some(i) => {
                proof {
                    lemma_mem_lookup_skip(cols0, collection@, i as int);
                    assert(cols0.skip(i as int).first() == cols0[i as int]);
                    assert(target == rec_views(cols0[i as int].1@));
                }
                let mut pair: (String, Vec<Record>) = (String::new(), Vec::new());
                self.collections.set_and_swap(i, &mut pair);
                let ghost docs0 = pair.1@;
                pair.1.push(doc);
                self.collections.set_and_swap(i, &mut pair);
                proof {
                    let p = self.collections@[i as int];
                    assert(self.collections@ =~= cols0.update(i as int, p));
                    assert(p.0@ == cols0[i as int].0@);
                    assert(p.1@ == docs0.push(doc));
                    assert(rec_views(p.1@) =~= rec_views(docs0).push(doc@));
                    lemma_mem_lookup_update(cols0, i as int, p);
                    assert forall|c: Seq<char>|
                        true implies #[trigger] self.sview()[c] == old(self).sview().insert(
                            collection@,
                            target.push(doc@),
                        )[c] by {
                        if c == collection@ {
                            assert(mem_lookup(self.collections@, c) == rec_views(p.1@));
                        } else {
                            assert(mem_lookup(self.collections@, c) == mem_lookup(cols0, c));
                        }
                    }
                    assert(self.sview() =~= old(self).sview().insert(
                        collection@,
                        target.push(doc@),
                    ));
                }
            },
            None => {
                let mut docs: Vec<Record> = Vec::new();
                docs.push(doc);
                self.collections.push((collection.to_owned(), docs));
                proof {
                    let p = self.collections@[cols0.len() as int];
                    assert(self.collections@ =~= cols0.push(p));
                    assert(p.0@ == collection@);
                    assert(rec_views(p.1@) =~= Seq::<RecordModel>::empty().push(doc@));
                    lemma_mem_lookup_skip(cols0, collection@, cols0.len() as int);
                    assert(cols0.skip(cols0.len() as int).len() == 0);
                    assert(target.len() == 0);
                    assert(target =~= Seq::<RecordModel>::empty());
                    assert forall|c: Seq<char>|
                        true implies #[trigger] self.sview()[c] == old(self).sview().insert(
                            collection@,
                            target.push(doc@),
                        )[c] by {
                        lemma_mem_lookup_snoc(cols0, p, c);
                    }
                    assert(self.sview() =~= old(self).sview().insert(
                        collection@,
                        target.push(doc@),
                    ));
                }
            },
        }
    }

    /// How many documents `collection` holds.
    pub fn count_records(&self, collection: &str) -> (n: usize)
        ensures
            n == self.sview()[collection@].len(),
    {
        match self.locate(collection) {
            Some(i) => {
                proof {
                    lemma_mem_lookup_skip(self.collections@, collection@, i as int);
                    assert(self.collections@.skip(i as int).first() == self.collections@[i as int]);
                }
                self.collections[i].1.len()
            },
            None => {
                proof {
                    lemma_mem_lookup_skip(
                        self.collections@,
                        collection@,
                        self.collections@.len() as int,
                    );
                    assert(self.collections@.skip(self.collections@.len() as int).len() == 0);
                }
                0
            },
        }
    }
}

impl DocumentStore for MemStore {
    closed spec fn sview(&self) -> StoreModel {
        Map::new(|c: Seq<char>| true, |c: Seq<char>| mem_lookup(self.collections@, c))
    }

    fn find(&self, collection: &str, field: &str, value: &FieldValue) -> (r: Result<
        Vec<Record>,
        StoreError,
    >) {
        let ghost cols0 = self.collections@;
        let ghost target = self.sview()[collection@];
        let mut out: Vec<Record> = Vec::new();
        match self.locate(collection) {
            Some(i) => {
                proof {
                    lemma_mem_lookup_skip(cols0, collection@, i as int);
                    assert(cols0.skip(i as int).first() == cols0[i as int]);
                    assert(target == rec_views(cols0[i as int].1@));
                }
                let docs = &self.collections[i].1;
                let n = docs.len();
                let mut j: usize = 0;
                while j < n
                    invariant
                        j <= n,
                        n == docs.len(),
                        target == rec_views(docs@),
                        rec_views(out@) == filter_matching(
                            rec_views(docs@.take(j as int)),
                            field@,
                            value@,
                        ),
                    decreases n - j,
                {
                    let ghost prefix = rec_views(docs@.take(j as int));
                    if docs[j].matches_filter(field, value) {
                        out.push(docs[j].duplicate());
                    }
                    proof {
                        assert(rec_views(docs@.take(j + 1)) =~= prefix.push(docs@[j as int]@));
                        lemma_filter_snoc(prefix, docs@[j as int]@, field@, value@);
                        assert(rec_views(out@) =~= filter_matching(
                            rec_views(docs@.take(j + 1)),
                            field@,
                            value@,
                        ));
                    }
                    j = j + 1;
                }
                proof {
                    assert(docs@.take(n as int) =~= docs@);
                }
                Ok(out)
            },
            None => {
                proof {
                    lemma_mem_lookup_skip(cols0, collection@, cols0.len() as int);
                    assert(cols0.skip(cols0.len() as int).len() == 0);
                    assert(target =~= Seq::<RecordModel>::empty());
                    assert(rec_views(out@) =~= filter_matching(target, field@, value@));
                }
                Ok(out)
            },
        }
    }

    fn delete_many(&mut self, collection: &str, field: &str, value: &FieldValue) -> (r: Result<
        usize,
        StoreError,
    >) {
        let ghost cols0 = self.collections@;
        let ghost target = self.sview()[collection@];
        match self.locate(collection) {
            Some(i) => {
                proof {
                    lemma_mem_lookup_skip(cols0, collection@, i as int);
                    assert(cols0.skip(i as int).first() == cols0[i as int]);
                    assert(target == rec_views(cols0[i as int].1@));
                }
                let name = self.collections[i].0.clone();
                let docs = &self.collections[i].1;
                let n = docs.len();
                let mut retained: Vec<Record> = Vec::new();
                let mut removed: usize = 0;
                let mut j: usize = 0;
                while j < n
                    invariant
                        j <= n,
                        n == docs.len(),
                        target == rec_views(docs@),
                        removed <= j,
                        rec_views(retained@) == remove_matching(
                            rec_views(docs@.take(j as int)),
                            field@,
                            value@,
                        ),
                        removed == count_matching(rec_views(docs@.take(j as int)), field@, value@),
                    decreases n - j,
                {
                    let ghost prefix = rec_views(docs@.take(j as int));
                    if docs[j].matches_filter(field, value) {
                        removed = removed + 1;
                    } else {
                        retained.push(docs[j].duplicate());
                    }
                    proof {
                        assert(rec_views(docs@.take(j + 1)) =~= prefix.push(docs@[j as int]@));
                        lemma_remove_snoc(prefix, docs@[j as int]@, field@, value@);
                        lemma_count_matching_snoc(prefix, docs@[j as int]@, field@, value@);
                        assert(rec_views(retained@) =~= remove_matching(
                            rec_views(docs@.take(j + 1)),
                            field@,
                            value@,
                        ));
                    }
                    j = j + 1;
                }
                proof {
                    assert(docs@.take(n as int) =~= docs@);
                }
                self.collections.set(i, (name, retained));
                proof {
                    let p = self.collections@[i as int];
                    assert(self.collections@ =~= cols0.update(i as int, p));
                    lemma_mem_lookup_update(cols0, i as int, p);
                    assert forall|c: Seq<char>|
                        true implies #[trigger] self.sview()[c] == old(self).sview().insert(
                            collection@,
                            remove_matching(target, field@, value@),
                        )[c] by {
                        if c == collection@ {
                            assert(mem_lookup(self.collections@, c) == rec_views(p.1@));
                        } else {
                            assert(mem_lookup(self.collections@, c) == mem_lookup(cols0, c));
                        }
                    }
                    assert(self.sview() =~= old(self).sview().insert(
                        collection@,
                        remove_matching(target, field@, value@),
                    ));
                }
                Ok(removed)
            },
            None => {
                proof {
                    lemma_mem_lookup_skip(cols0, collection@, cols0.len() as int);
                    assert(cols0.skip(cols0.len() as int).len() == 0);
                    assert(target =~= Seq::<RecordModel>::empty());
                    assert(remove_matching(target, field@, value@) =~= target);
                    assert(self.sview() =~= old(self).sview().insert(
                        collection@,
                        remove_matching(target, field@, value@),
                    ));
                }
                Ok(0)
            },
        }
    }

    fn delete_one(&mut self, collection: &str, field: &str, value: &FieldValue) -> (r: Result<
        bool,
        StoreError,
    >) {
        let ghost cols0 = self.collections@;
        let ghost target = self.sview()[collection@];
        match self.locate(collection) {
            Some(i) => {
                proof {
                    lemma_mem_lookup_skip(cols0, collection@, i as int);
                    assert(cols0.skip(i as int).first() == cols0[i as int]);
                    assert(target == rec_views(cols0[i as int].1@));
                }
                let name = self.collections[i].0.clone();
                let docs = &self.collections[i].1;
                let n = docs.len();
                let mut found = false;
                let mut j: usize = 0;
                while j < n && !found
                    invariant
                        j <= n,
                        n == docs.len(),
                        target == rec_views(docs@),
                        forall|k: int| 0 <= k < j ==> !rec_matches(#[trigger] target[k], field@, value@),
                        found ==> j < n && rec_matches(target[j as int], field@, value@),
                    decreases n - j, (if found { 0int } else { 1int }),
                {
                    if docs[j].matches_filter(field, value) {
                        found = true;
                    } else {
                        j = j + 1;
                    }
                }
                if found {
                    let j2 = j;
                    {
                        proof {
                            assert(rec_matches(target[j2 as int], field@, value@));
                            lemma_remove_first_at(target, field@, value@, j2 as int);
                        }
                        let mut kept: Vec<Record> = Vec::new();
                        let mut k: usize = 0;
                        while k < n
                            invariant
                                k <= n,
                                n == docs.len(),
                                j2 < n,
                                target == rec_views(docs@),
                                k <= j2 ==> rec_views(kept@) == target.take(k as int),
                                k > j2 ==> rec_views(kept@) == target.remove(j2 as int).take(
                                    k - 1,
                                ),
                            decreases n - k,
                        {
                            if k != j2 {
                                kept.push(docs[k].duplicate());
                            }
                            proof {
                                if k < j2 {
                                    assert(rec_views(kept@) =~= target.take(k + 1));
                                } else if k == j2 {
                                    assert(rec_views(kept@) =~= target.take(k as int));
                                    assert(target.remove(j2 as int).take(k as int) =~= target.take(
                                        k as int,
                                    ));
                                } else {
                                    assert(target.remove(j2 as int)[k - 1] == target[k as int]);
                                    assert(rec_views(kept@) =~= target.remove(j2 as int).take(
                                        k as int,
                                    ));
                                }
                            }
                            k = k + 1;
                        }
                        proof {
                            assert(target.remove(j2 as int).take(n - 1) =~= target.remove(
                                j2 as int,
                            ));
                        }
                        self.collections.set(i, (name, kept));
                        proof {
                            let p = self.collections@[i as int];
                            assert(self.collections@ =~= cols0.update(i as int, p));
                            lemma_mem_lookup_update(cols0, i as int, p);
                            assert forall|c: Seq<char>|
                                true implies #[trigger] self.sview()[c] == old(
                                    self,
                                ).sview().insert(
                                    collection@,
                                    remove_first_match(target, field@, value@),
                                )[c] by {
                                if c == collection@ {
                                    assert(mem_lookup(self.collections@, c) == rec_views(p.1@));
                                } else {
                                    assert(mem_lookup(self.collections@, c) == mem_lookup(
                                        cols0,
                                        c,
                                    ));
                                }
                            }
                            assert(self.sview() =~= old(self).sview().insert(
                                collection@,
                                remove_first_match(target, field@, value@),
                            ));
                            assert(count_matching(target, field@, value@) > 0) by {
                                lemma_count_matching_zero(target, field@, value@);
                            }
                        }
                        Ok(true)
                    }
                } else {
                    proof {
                        lemma_count_matching_zero(target, field@, value@);
                        lemma_remove_first_noop(target, field@, value@);
                        assert(self.sview() =~= old(self).sview().insert(
                            collection@,
                            remove_first_match(target, field@, value@),
                        ));
                    }
                    Ok(false)
                }
            },
            None => {
                proof {
                    lemma_mem_lookup_skip(cols0, collection@, cols0.len() as int);
                    assert(cols0.skip(cols0.len() as int).len() == 0);
                    assert(target =~= Seq::<RecordModel>::empty());
                    lemma_count_matching_zero(target, field@, value@);
                    lemma_remove_first_noop(target, field@, value@);
                    assert(self.sview() =~= old(self).sview().insert(
                        collection@,
                        remove_first_match(target, field@, value@),
                    ));
                }
                Ok(false)
            },
        }
    }
}

} // verus!
