//! The library's deletion laws: what holds of every completed cascade.
//!
//! Each proof function here takes the store contents before and after a
//! successful `safe_delete` — related by [`safe_delete_post`], the bundle
//! that `safe_delete` and `safe_delete_by_key` ensure — and derives one of
//! the guarantees the library makes.

use vstd::prelude::*;
use crate::delete::{children_cleared, doc_cleared, safe_delete_post};
use crate::graph::{GraphModel, lemma_no_incoming, reaches};
use crate::model::{
    FieldValueModel, RecordModel, StoreModel, count_matching, count_occ, get_field_spec,
    lemma_count_matching_zero, lemma_count_occ_member, lemma_remove_first_count,
    lemma_remove_first_noop, rec_matches, remove_first_match,
};
use crate::registry::{IndexEntryModel, spec_index_field};

verus! {

/// Deleting a record of a collection that owns nothing removes at most that
/// one record — its collection's first index match — and leaves every other
/// collection exactly as it was.
pub proof fn lemma_delete_without_children(
    g: GraphModel,
    index: Seq<IndexEntryModel>,
    s_old: StoreModel,
    s_new: StoreModel,
    coll: Seq<char>,
    f: Seq<char>,
    key: FieldValueModel,
)
    requires
        safe_delete_post(g, index, s_old, s_new, coll, f, key),
        forall|i: int| 0 <= i < g.edges.len() ==> (#[trigger] g.edges[i]).owner != coll,
    ensures
        s_new[coll] == remove_first_match(s_old[coll], f, key),
        forall|c: Seq<char>| c != coll ==> #[trigger] s_new[c] == s_old[c],
{
    lemma_no_incoming(g, coll);
    assert forall|c: Seq<char>| c != coll implies #[trigger] s_new[c] == s_old[c] by {
        assert(!reaches(g, c, coll));
    }
}

/// In a chain `A owns B owns C`, deleting an `A`-record leaves no `B`
/// document owned by it, and no `C` document owned by any such `B`: the
/// cascade leaves no orphans along the chain.
pub proof fn lemma_delete_chain(
    g: GraphModel,
    index: Seq<IndexEntryModel>,
    s_old: StoreModel,
    s_new: StoreModel,
    a: Seq<char>,
    b: Seq<char>,
    c: Seq<char>,
    f: Seq<char>,
    key: FieldValueModel,
    eb: int,
    ec: int,
    idx_b: Seq<char>,
)
    requires
        safe_delete_post(g, index, s_old, s_new, a, f, key),
        0 <= eb < g.edges.len(),
        g.edges[eb].owned == b,
        g.edges[eb].owner == a,
        0 <= ec < g.edges.len(),
        g.edges[ec].owned == c,
        g.edges[ec].owner == b,
        b != a,
        spec_index_field(index, b) == Some(idx_b),
    ensures
        count_matching(s_new[b], g.edges[eb].owned_field, key) == 0,
        forall|i: int|
            0 <= i < s_old[b].len() && rec_matches(
                #[trigger] s_old[b][i],
                g.edges[eb].owned_field,
                key,
            ) ==> get_field_spec(s_old[b][i], idx_b) is Some && count_matching(
                s_new[c],
                g.edges[ec].owned_field,
                get_field_spec(s_old[b][i], idx_b).unwrap(),
            ) == 0,
{
    let fb = g.edges[eb].owned_field;
    let fc = g.edges[ec].owned_field;
    assert(children_cleared(g, s_new, a, key));
    assert(count_matching(s_new[b], fb, key) == 0);
    assert forall|i: int|
        0 <= i < s_old[b].len() && rec_matches(#[trigger] s_old[b][i], fb, key) implies
        get_field_spec(s_old[b][i], idx_b) is Some && count_matching(
        s_new[c],
        fc,
        get_field_spec(s_old[b][i], idx_b).unwrap(),
    ) == 0 by {
        let x = s_old[b][i];
        // the matching document is gone from `b` ...
        lemma_count_matching_zero(s_new[b], fb, key);
        assert(count_occ(s_new[b], x) == 0) by {
            lemma_count_occ_member(s_new[b], x);
            if count_occ(s_new[b], x) > 0 {
                let j = choose|j: int| 0 <= j < s_new[b].len() && s_new[b][j] == x;
                assert(rec_matches(s_new[b][j], fb, key));
            }
        }
        lemma_count_occ_member(s_old[b], x);
        assert(count_occ(s_old[b], x) > 0);
        // ... so it was deleted, and the orphan-freedom clause applies
        assert(crate::model::deleted_from(s_old[b], s_new[b], x));
        assert(doc_cleared(g, index, s_new, b, x));
        let kx = get_field_spec(x, idx_b).unwrap();
        assert(children_cleared(g, s_new, b, kx));
        assert(count_matching(s_new[c], fc, kx) == 0);
    }
}

/// Deleting a record never touches a collection that cannot reach the
/// record's collection in the ownership graph — in particular not the
/// collection of the record's own owner.
pub proof fn lemma_delete_keeps_unrelated(
    g: GraphModel,
    index: Seq<IndexEntryModel>,
    s_old: StoreModel,
    s_new: StoreModel,
    coll: Seq<char>,
    f: Seq<char>,
    key: FieldValueModel,
    other: Seq<char>,
)
    requires
        safe_delete_post(g, index, s_old, s_new, coll, f, key),
        !reaches(g, other, coll),
    ensures
        s_new[other] == s_old[other],
{
}

/// Sibling records survive: a document of the deleted record's own
/// collection that does not match the index key keeps every copy it had.
pub proof fn lemma_delete_keeps_siblings(
    g: GraphModel,
    index: Seq<IndexEntryModel>,
    s_old: StoreModel,
    s_new: StoreModel,
    coll: Seq<char>,
    f: Seq<char>,
    key: FieldValueModel,
    x: RecordModel,
)
    requires
        safe_delete_post(g, index, s_old, s_new, coll, f, key),
        !rec_matches(x, f, key),
    ensures
        count_occ(s_new[coll], x) == count_occ(s_old[coll], x),
{
    lemma_remove_first_count(s_old[coll], f, key, x);
}

/// Deletion reaches only the owned subtree: every document deleted outside
/// the record's own collection was owned, through an ownership edge, either
/// directly by the deleted record's key or by a document that was itself
/// deleted.
pub proof fn lemma_delete_only_owned(
    g: GraphModel,
    index: Seq<IndexEntryModel>,
    s_old: StoreModel,
    s_new: StoreModel,
    coll: Seq<char>,
    f: Seq<char>,
    key: FieldValueModel,
    c: Seq<char>,
    x: RecordModel,
)
    requires
        safe_delete_post(g, index, s_old, s_new, coll, f, key),
        c != coll,
        crate::model::deleted_from(s_old[c], s_new[c], x),
    ensures
        crate::delete::deletion_owned(g, index, s_old, s_new, coll, key, c, x),
{
}

/// Deleting by an index value that no document holds and no document
/// references leaves the whole store exactly as it was: a no-op, not an
/// error.
pub proof fn lemma_delete_absent_noop(
    g: GraphModel,
    index: Seq<IndexEntryModel>,
    s_old: StoreModel,
    s_new: StoreModel,
    coll: Seq<char>,
    f: Seq<char>,
    key: FieldValueModel,
)
    requires
        safe_delete_post(g, index, s_old, s_new, coll, f, key),
        children_cleared(g, s_old, coll, key),
        count_matching(s_old[coll], f, key) == 0,
    ensures
        forall|c: Seq<char>| #[trigger] s_new[c] == s_old[c],
{
    lemma_remove_first_noop(s_old[coll], f, key);
    assert forall|c: Seq<char>| #[trigger] s_new[c] == s_old[c] by {
        if c == coll {
            assert(s_new[coll] == remove_first_match(s_old[coll], f, key));
        }
    }
}

} // verus!
