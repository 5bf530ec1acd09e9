//! The mathematical model of documents and collections.
//!
//! A document is a sequence of named fields; a store maps collection names to
//! document sequences.  The spec functions here define field lookup, filter
//! matching, and the counting predicates that the contracts of the store and
//! of the cascade-delete engine are stated over.

use vstd::prelude::*;

verus! {

/// A concrete value held by a document field: the small set of key types the
/// store can compare for equality (integers, UUIDs, booleans, text).
pub enum FieldValue {
    IntVal(u64),
    UuidVal(u128),
    BoolVal(bool),
    StrVal(String),
}

/// The mathematical value of a [`FieldValue`]: text becomes a character
/// sequence, everything else is carried as is.
pub enum FieldValueModel {
    IntV(u64),
    UuidV(u128),
    BoolV(bool),
    StrV(Seq<char>),
}

impl View for FieldValue {
    type V = FieldValueModel;

    open spec fn view(&self) -> FieldValueModel {
        match self {
            FieldValue::IntVal(n) => FieldValueModel::IntV(*n),
            FieldValue::UuidVal(u) => FieldValueModel::UuidV(*u),
            FieldValue::BoolVal(b) => FieldValueModel::BoolV(*b),
            FieldValue::StrVal(s) => FieldValueModel::StrV(s@),
        }
    }
}

/// The mathematical value of a document: its fields in declaration order.
pub type RecordModel = Seq<(Seq<char>, FieldValueModel)>;

/// The mathematical value of a whole store: a total map from collection name
/// to the documents the collection holds (a name never written maps to the
/// empty sequence).
pub type StoreModel = Map<Seq<char>, Seq<RecordModel>>;

/// A document: named fields in a fixed order.
pub struct Record {
    pub fields: Vec<(String, FieldValue)>,
}

impl View for Record {
    type V = RecordModel;

    open spec fn view(&self) -> RecordModel {
        Seq::new(self.fields@.len(), |i: int| (self.fields@[i].0@, self.fields@[i].1@))
    }
}

/// The models of a sequence of documents.
pub open spec fn rec_views(s: Seq<Record>) -> Seq<RecordModel> {
    s.map_values(|r: Record| r@)
}

/// The value of the first field named `f`, if any.
pub open spec fn get_field_spec(r: RecordModel, f: Seq<char>) -> Option<FieldValueModel>
    decreases r.len(),
{
    if r.len() == 0 {
        None
    } else if r.first().0 == f {
        Some(r.first().1)
    } else {
        get_field_spec(r.drop_first(), f)
    }
}

/// A document matches the filter `f == v` when its field `f` holds `v`.
pub open spec fn rec_matches(r: RecordModel, f: Seq<char>, v: FieldValueModel) -> bool {
    get_field_spec(r, f) == Some(v)
}

/// How many documents of `s` match the filter.
pub open spec fn count_matching(s: Seq<RecordModel>, f: Seq<char>, v: FieldValueModel) -> nat
    decreases s.len(),
{
    if s.len() == 0 {
        0
    } else {
        (if rec_matches(s.first(), f, v) {
            1nat
        } else {
            0nat
        }) + count_matching(s.drop_first(), f, v)
    }
}

/// The documents of `s` that match the filter, in order.
pub open spec fn filter_matching(s: Seq<RecordModel>, f: Seq<char>, v: FieldValueModel) -> Seq<
    RecordModel,
>
    decreases s.len(),
{
    if s.len() == 0 {
        Seq::empty()
    } else {
        let rest = filter_matching(s.drop_first(), f, v);
        if rec_matches(s.first(), f, v) {
            seq![s.first()] + rest
        } else {
            rest
        }
    }
}

/// The documents of `s` that do not match the filter, in order: what a
/// `delete_many` on the filter leaves behind.
pub open spec fn remove_matching(s: Seq<RecordModel>, f: Seq<char>, v: FieldValueModel) -> Seq<
    RecordModel,
>
    decreases s.len(),
{
    if s.len() == 0 {
        Seq::empty()
    } else {
        let rest = remove_matching(s.drop_first(), f, v);
        if rec_matches(s.first(), f, v) {
            rest
        } else {
            seq![s.first()] + rest
        }
    }
}

/// `s` without its first match of the filter, if any: what a `delete_one` on
/// the filter leaves behind.
pub open spec fn remove_first_match(s: Seq<RecordModel>, f: Seq<char>, v: FieldValueModel) -> Seq<
    RecordModel,
>
    decreases s.len(),
{
    if s.len() == 0 {
        s
    } else if rec_matches(s.first(), f, v) {
        s.drop_first()
    } else {
        seq![s.first()] + remove_first_match(s.drop_first(), f, v)
    }
}

/// How many times the document value `x` occurs in `s`.
pub open spec fn count_occ(s: Seq<RecordModel>, x: RecordModel) -> nat
    decreases s.len(),
{
    if s.len() == 0 {
        0
    } else {
        (if s.first() == x {
            1nat
        } else {
            0nat
        }) + count_occ(s.drop_first(), x)
    }
}

/// `b` holds no document value more often than `a` does: `b` arises from `a`
/// by deletions alone.
pub open spec fn seq_shrunk(a: Seq<RecordModel>, b: Seq<RecordModel>) -> bool {
    forall|x: RecordModel| #[trigger] count_occ(b, x) <= count_occ(a, x)
}

/// Every collection of `b` arises from the one of `a` by deletions alone.
pub open spec fn store_shrunk(a: StoreModel, b: StoreModel) -> bool {
    forall|c: Seq<char>| #[trigger] seq_shrunk(a[c], b[c])
}

/// A document value was deleted when fewer copies of it remain.
pub open spec fn deleted_from(a: Seq<RecordModel>, b: Seq<RecordModel>, x: RecordModel) -> bool {
    count_occ(b, x) < count_occ(a, x)
}

/// `filter_matching` keeps exactly the matching copies of every value.
pub proof fn lemma_filter_count(s: Seq<RecordModel>, f: Seq<char>, v: FieldValueModel, x: RecordModel)
    ensures
        count_occ(filter_matching(s, f, v), x) == if rec_matches(x, f, v) {
            count_occ(s, x)
        } else {
            0nat
        },
    decreases s.len(),
{
    if s.len() > 0 {
        lemma_filter_count(s.drop_first(), f, v, x);
        if rec_matches(s.first(), f, v) {
            assert(filter_matching(s, f, v) == seq![s.first()] + filter_matching(
                s.drop_first(),
                f,
                v,
            ));
            assert((seq![s.first()] + filter_matching(s.drop_first(), f, v)).drop_first()
                =~= filter_matching(s.drop_first(), f, v));
        }
    }
}

/// `remove_matching` drops exactly the matching copies of every value.
pub proof fn lemma_remove_count(s: Seq<RecordModel>, f: Seq<char>, v: FieldValueModel, x: RecordModel)
    ensures
        count_occ(remove_matching(s, f, v), x) == if rec_matches(x, f, v) {
            0nat
        } else {
            count_occ(s, x)
        },
    decreases s.len(),
{
    if s.len() > 0 {
        lemma_remove_count(s.drop_first(), f, v, x);
        if !rec_matches(s.first(), f, v) {
            assert((seq![s.first()] + remove_matching(s.drop_first(), f, v)).drop_first()
                =~= remove_matching(s.drop_first(), f, v));
        }
    }
}

/// `remove_first_match` never adds copies, and only a matching value can lose
/// one.
pub proof fn lemma_remove_first_count(
    s: Seq<RecordModel>,
    f: Seq<char>,
    v: FieldValueModel,
    x: RecordModel,
)
    ensures
        count_occ(remove_first_match(s, f, v), x) <= count_occ(s, x),
        count_occ(remove_first_match(s, f, v), x) < count_occ(s, x) ==> rec_matches(x, f, v),
    decreases s.len(),
{
    if s.len() > 0 {
        lemma_remove_first_count(s.drop_first(), f, v, x);
        if !rec_matches(s.first(), f, v) {
            assert((seq![s.first()] + remove_first_match(s.drop_first(), f, v)).drop_first()
                =~= remove_first_match(s.drop_first(), f, v));
        }
    }
}

/// The filter count is zero exactly when no document of `s` matches.
pub proof fn lemma_count_matching_zero(s: Seq<RecordModel>, f: Seq<char>, v: FieldValueModel)
    ensures
        count_matching(s, f, v) == 0 <==> (forall|i: int|
            0 <= i < s.len() ==> !rec_matches(#[trigger] s[i], f, v)),
    decreases s.len(),
{
    if s.len() > 0 {
        lemma_count_matching_zero(s.drop_first(), f, v);
        assert(forall|i: int| 0 <= i < s.drop_first().len() ==> s.drop_first()[i] == s[i + 1]);
        if count_matching(s, f, v) == 0 {
            assert(forall|i: int|
                0 < i < s.len() ==> #[trigger] s[i] == s.drop_first()[i - 1]);
        }
    }
}

/// A value occurs in `s` exactly when some position holds it.
pub proof fn lemma_count_occ_member(s: Seq<RecordModel>, x: RecordModel)
    ensures
        count_occ(s, x) > 0 <==> (exists|i: int| 0 <= i < s.len() && s[i] == x),
    decreases s.len(),
{
    if s.len() > 0 {
        lemma_count_occ_member(s.drop_first(), x);
        if s.first() == x {
            assert(s[0] == x);
        } else if count_occ(s.drop_first(), x) > 0 {
            let i = choose|i: int| 0 <= i < s.drop_first().len() && s.drop_first()[i] == x;
            assert(s[i + 1] == x);
        } else if exists|i: int| 0 <= i < s.len() && s[i] == x {
            let i = choose|i: int| 0 <= i < s.len() && s[i] == x;
            assert(i > 0);
            assert(s.drop_first()[i - 1] == x);
        }
    }
}

/// After a `delete_many` on a filter, nothing matching the filter remains.
pub proof fn lemma_remove_matching_clears(s: Seq<RecordModel>, f: Seq<char>, v: FieldValueModel)
    ensures
        count_matching(remove_matching(s, f, v), f, v) == 0,
    decreases s.len(),
{
    if s.len() > 0 {
        lemma_remove_matching_clears(s.drop_first(), f, v);
        if !rec_matches(s.first(), f, v) {
            assert((seq![s.first()] + remove_matching(s.drop_first(), f, v)).drop_first()
                =~= remove_matching(s.drop_first(), f, v));
        }
    }
}

/// A `delete_many` whose filter matches nothing leaves the sequence as it is.
pub proof fn lemma_remove_matching_noop(s: Seq<RecordModel>, f: Seq<char>, v: FieldValueModel)
    requires
        count_matching(s, f, v) == 0,
    ensures
        remove_matching(s, f, v) == s,
    decreases s.len(),
{
    if s.len() > 0 {
        lemma_remove_matching_noop(s.drop_first(), f, v);
        assert(seq![s.first()] + s.drop_first() =~= s);
    }
}

/// A `delete_one` whose filter matches nothing leaves the sequence as it is.
pub proof fn lemma_remove_first_noop(s: Seq<RecordModel>, f: Seq<char>, v: FieldValueModel)
    requires
        count_matching(s, f, v) == 0,
    ensures
        remove_first_match(s, f, v) == s,
    decreases s.len(),
{
    if s.len() > 0 {
        lemma_remove_first_noop(s.drop_first(), f, v);
        assert(seq![s.first()] + s.drop_first() =~= s);
    }
}

/// A filter that matches nothing finds nothing.
pub proof fn lemma_filter_empty(s: Seq<RecordModel>, f: Seq<char>, v: FieldValueModel)
    requires
        count_matching(s, f, v) == 0,
    ensures
        filter_matching(s, f, v) == Seq::<RecordModel>::empty(),
    decreases s.len(),
{
    if s.len() > 0 {
        lemma_filter_empty(s.drop_first(), f, v);
    }
}

/// Every document a filter finds matches the filter.
pub proof fn lemma_filter_members(s: Seq<RecordModel>, f: Seq<char>, v: FieldValueModel)
    ensures
        forall|i: int|
            0 <= i < filter_matching(s, f, v).len() ==> rec_matches(
                #[trigger] filter_matching(s, f, v)[i],
                f,
                v,
            ),
    decreases s.len(),
{
    if s.len() > 0 {
        lemma_filter_members(s.drop_first(), f, v);
        let rest = filter_matching(s.drop_first(), f, v);
        assert forall|i: int| 0 <= i < filter_matching(s, f, v).len() implies rec_matches(
            #[trigger] filter_matching(s, f, v)[i],
            f,
            v,
        ) by {
            if rec_matches(s.first(), f, v) {
                assert(filter_matching(s, f, v) == seq![s.first()] + rest);
                if i == 0 {
                    assert(filter_matching(s, f, v)[0] == s.first());
                } else {
                    assert(filter_matching(s, f, v)[i] == rest[i - 1]);
                }
            } else {
                assert(filter_matching(s, f, v)[i] == rest[i]);
            }
        }
    }
}

/// Deletions cannot create a match: a sequence shrunk from one with no
/// matches still has none.
pub proof fn lemma_no_match_monotone(
    a: Seq<RecordModel>,
    b: Seq<RecordModel>,
    f: Seq<char>,
    v: FieldValueModel,
)
    requires
        seq_shrunk(a, b),
        count_matching(a, f, v) == 0,
    ensures
        count_matching(b, f, v) == 0,
{
    lemma_count_matching_zero(a, f, v);
    lemma_count_matching_zero(b, f, v);
    assert forall|i: int| 0 <= i < b.len() implies !rec_matches(#[trigger] b[i], f, v) by {
        lemma_count_occ_member(b, b[i]);
        assert(count_occ(b, b[i]) > 0);
        lemma_count_occ_member(a, b[i]);
        let j = choose|j: int| 0 <= j < a.len() && a[j] == b[i];
        assert(!rec_matches(a[j], f, v));
    }
}

/// `seq_shrunk` composes.
pub proof fn lemma_shrunk_trans(a: Seq<RecordModel>, b: Seq<RecordModel>, c: Seq<RecordModel>)
    requires
        seq_shrunk(a, b),
        seq_shrunk(b, c),
    ensures
        seq_shrunk(a, c),
{
}

/// `count_matching` over a sequence extended on the right.
pub proof fn lemma_count_matching_snoc(
    s: Seq<RecordModel>,
    x: RecordModel,
    f: Seq<char>,
    v: FieldValueModel,
)
    ensures
        count_matching(s.push(x), f, v) == count_matching(s, f, v) + if rec_matches(x, f, v) {
            1nat
        } else {
            0nat
        },
    decreases s.len(),
{
    if s.len() == 0 {
        assert(s.push(x).drop_first() =~= s);
    } else {
        assert(s.push(x).first() == s.first());
        assert(s.push(x).drop_first() =~= s.drop_first().push(x));
        lemma_count_matching_snoc(s.drop_first(), x, f, v);
    }
}

/// `filter_matching` over a sequence extended on the right.
pub proof fn lemma_filter_snoc(
    s: Seq<RecordModel>,
    x: RecordModel,
    f: Seq<char>,
    v: FieldValueModel,
)
    ensures
        filter_matching(s.push(x), f, v) == filter_matching(s, f, v) + if rec_matches(x, f, v) {
            seq![x]
        } else {
            Seq::<RecordModel>::empty()
        },
    decreases s.len(),
{
    if s.len() == 0 {
        assert(s.push(x).drop_first() =~= s);
        if rec_matches(x, f, v) {
            assert(seq![x] + Seq::<RecordModel>::empty() =~= seq![x]);
            assert(filter_matching(s, f, v) + seq![x] =~= seq![x]);
        } else {
            assert(filter_matching(s, f, v) + Seq::<RecordModel>::empty() =~= Seq::<
                RecordModel,
            >::empty());
        }
    } else {
        assert(s.push(x).first() == s.first());
        assert(s.push(x).drop_first() =~= s.drop_first().push(x));
        lemma_filter_snoc(s.drop_first(), x, f, v);
        if rec_matches(s.first(), f, v) {
            assert(seq![s.first()] + (filter_matching(s.drop_first(), f, v) + if rec_matches(
                x,
                f,
                v,
            ) {
                seq![x]
            } else {
                Seq::<RecordModel>::empty()
            }) =~= (seq![s.first()] + filter_matching(s.drop_first(), f, v)) + if rec_matches(
                x,
                f,
                v,
            ) {
                seq![x]
            } else {
                Seq::<RecordModel>::empty()
            });
        }
    }
}

/// `remove_matching` over a sequence extended on the right.
pub proof fn lemma_remove_snoc(
    s: Seq<RecordModel>,
    x: RecordModel,
    f: Seq<char>,
    v: FieldValueModel,
)
    ensures
        remove_matching(s.push(x), f, v) == remove_matching(s, f, v) + if rec_matches(x, f, v) {
            Seq::<RecordModel>::empty()
        } else {
            seq![x]
        },
    decreases s.len(),
{
    if s.len() == 0 {
        assert(s.push(x).drop_first() =~= s);
        if rec_matches(x, f, v) {
            assert(remove_matching(s, f, v) + Seq::<RecordModel>::empty() =~= Seq::<
                RecordModel,
            >::empty());
        } else {
            assert(remove_matching(s, f, v) + seq![x] =~= seq![x]);
        }
    } else {
        assert(s.push(x).first() == s.first());
        assert(s.push(x).drop_first() =~= s.drop_first().push(x));
        lemma_remove_snoc(s.drop_first(), x, f, v);
        if !rec_matches(s.first(), f, v) {
            assert(seq![s.first()] + (remove_matching(s.drop_first(), f, v) + if rec_matches(
                x,
                f,
                v,
            ) {
                Seq::<RecordModel>::empty()
            } else {
                seq![x]
            }) =~= (seq![s.first()] + remove_matching(s.drop_first(), f, v)) + if rec_matches(
                x,
                f,
                v,
            ) {
                Seq::<RecordModel>::empty()
            } else {
                seq![x]
            });
        }
    }
}

/// Removing the first match, located at position `j`.
pub proof fn lemma_remove_first_at(
    s: Seq<RecordModel>,
    f: Seq<char>,
    v: FieldValueModel,
    j: int,
)
    requires
        0 <= j < s.len(),
        rec_matches(s[j], f, v),
        forall|k: int| 0 <= k < j ==> !rec_matches(#[trigger] s[k], f, v),
    ensures
        remove_first_match(s, f, v) == s.remove(j),
    decreases j,
{
    if j == 0 {
        assert(s.first() == s[0]);
        assert(s.drop_first() =~= s.remove(0));
    } else {
        assert(s.first() == s[0]);
        assert(!rec_matches(s[0], f, v));
        assert(forall|k: int| 0 <= k < j - 1 ==> (#[trigger] s.drop_first()[k]) == s[k + 1]);
        assert(s.drop_first()[j - 1] == s[j]);
        lemma_remove_first_at(s.drop_first(), f, v, j - 1);
        assert(seq![s.first()] + s.drop_first().remove(j - 1) =~= s.remove(j));
    }
}

impl FieldValue {
    /// A copy with the same mathematical value.
    pub fn duplicate(&self) -> (r: FieldValue)
        ensures
            r@ == self@,
    {
        match self {
            FieldValue::IntVal(n) => FieldValue::IntVal(*n),
            FieldValue::UuidVal(u) => FieldValue::UuidVal(*u),
            FieldValue::BoolVal(b) => FieldValue::BoolVal(*b),
            FieldValue::StrVal(s) => FieldValue::StrVal(s.clone()),
        }
    }
}

/// Field lookup ignores a prefix of fields whose names all differ from `f`.
pub proof fn lemma_get_field_skip(r: RecordModel, f: Seq<char>, i: int)
    requires
        0 <= i <= r.len(),
        forall|j: int| 0 <= j < i ==> (#[trigger] r[j]).0 != f,
    ensures
        get_field_spec(r, f) == get_field_spec(r.skip(i), f),
    decreases i,
{
    if i > 0 {
        assert(r.len() > 0);
        assert(r[0].0 != f);
        assert(r.first() == r[0]);
        assert(r.drop_first().skip(i - 1) =~= r.skip(i));
        assert(forall|j: int|
            0 <= j < i - 1 ==> (#[trigger] r.drop_first()[j]) == r[j + 1]);
        lemma_get_field_skip(r.drop_first(), f, i - 1);
    } else {
        assert(r.skip(0) =~= r);
    }
}

/// Character-by-character string equality, decided against the views.
pub fn str_eq(a: &str, b: &str) -> (r: bool)
    ensures
        r == (a@ == b@),
{
    let la = a.unicode_len();
    let lb = b.unicode_len();
    if la != lb {
        return false;
    }
    let mut i: usize = 0;
    while i < la
        invariant
            i <= la,
            la == a@.len(),
            la == b@.len(),
            forall|j: int| 0 <= j < i ==> a@[j] == b@[j],
        decreases la - i,
    {
        if a.get_char(i) != b.get_char(i) {
            return false;
        }
        i = i + 1;
    }
    proof {
        assert(a@ =~= b@);
    }
    true
}

/// Equality of two field values, decided against the views.
pub fn field_value_eq(a: &FieldValue, b: &FieldValue) -> (r: bool)
    ensures
        r == (a@ == b@),
{
    match (a, b) {
        (FieldValue::IntVal(x), FieldValue::IntVal(y)) => x == y,
        (FieldValue::UuidVal(x), FieldValue::UuidVal(y)) => x == y,
        (FieldValue::BoolVal(x), FieldValue::BoolVal(y)) => x == y,
        (FieldValue::StrVal(x), FieldValue::StrVal(y)) => str_eq(x.as_str(), y.as_str()),
        _ => false,
    }
}

impl Record {
    /// The value of this document's first field named `f`, if any.
    pub fn get_field(&self, f: &str) -> (o: Option<&FieldValue>)
        ensures
            match o {
                Some(v) => get_field_spec(self@, f@) == Some(v@),
                None => get_field_spec(self@, f@) is None,
            },
    {
        let n = self.fields.len();
        let mut i: usize = 0;
        while i < n
            invariant
                i <= n,
                n == self.fields.len(),
                forall|j: int| 0 <= j < i ==> (#[trigger] self@[j]).0 != f@,
            decreases n - i,
        {
            if str_eq(self.fields[i].0.as_str(), f) {
                proof {
                    lemma_get_field_skip(self@, f@, i as int);
                    assert(self@.skip(i as int).first() == self@[i as int]);
                }
                return Some(&self.fields[i].1);
            }
            i = i + 1;
        }
        proof {
            lemma_get_field_skip(self@, f@, n as int);
            assert(self@.skip(n as int).len() == 0);
        }
        None
    }

    /// A copy with the same mathematical value.
    pub fn duplicate(&self) -> (r: Record)
        ensures
            r@ == self@,
    {
        let n = self.fields.len();
        let mut fields: Vec<(String, FieldValue)> = Vec::new();
        let mut i: usize = 0;
        while i < n
            invariant
                i <= n,
                n == self.fields.len(),
                fields@.len() == i,
                forall|k: int|
                    0 <= k < i ==> (#[trigger] fields@[k]).0@ == self.fields@[k].0@
                        && fields@[k].1@ == self.fields@[k].1@,
            decreases n - i,
        {
            let name = self.fields[i].0.clone();
            let value = self.fields[i].1.duplicate();
            fields.push((name, value));
            i = i + 1;
        }
        let r = Record { fields };
        proof {
            assert(r@ =~= self@);
        }
        r
    }

    /// Whether this document matches the filter `f == v`.
    pub fn matches_filter(&self, f: &str, v: &FieldValue) -> (r: bool)
        ensures
            r == rec_matches(self@, f@, v@),
    {
        match self.get_field(f) {
            Some(w) => field_value_eq(w, v),
            None => false,
        }
    }
}

/// `store_shrunk` composes.
pub proof fn lemma_store_shrunk_trans(a: StoreModel, b: StoreModel, c: StoreModel)
    requires
        store_shrunk(a, b),
        store_shrunk(b, c),
    ensures
        store_shrunk(a, c),
{
    assert forall|d: Seq<char>| #[trigger] seq_shrunk(a[d], c[d]) by {
        assert(seq_shrunk(a[d], b[d]));
        assert(seq_shrunk(b[d], c[d]));
        lemma_shrunk_trans(a[d], b[d], c[d]);
    }
}

} // verus!
