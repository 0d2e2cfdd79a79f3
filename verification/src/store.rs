use vstd::prelude::*;
use vstd::pervasive::VecAdditionalExecFns;

use crate::errors::ServiceError;
use crate::filters::{filter_matches, sample_matches, Filter, FilterV};
use crate::ids::{gen_id, gen_id_rep, lemma_gen_id_injective, Id};
use crate::models::{
    clone_opt_id, clone_opt_string, clone_values, opt_id_view, stamped_node, unique_value_ids,
    wf_embedded, wf_node, wf_sample, DeleteResponse, Embedded, EmbeddedV, NewEmbedded,
    NewEmbeddedV, NewSample, NewSampleV, NodeDetails, NodeV, Sample, SampleV, UpdateEmbedded,
    UpdateSample, UpdateSampleV,
};
use crate::pagination::{
    build_connection, connection_spec, sample_before, sample_le, sample_lt, sorted_samples,
    unique_sample_ids, Cursor, SampleConnection, lemma_sample_order_total,
    lemma_sample_lt_le_trans, opt_cursor_view, opt_limit_view,
};

verus! {

// ---------------------------------------------------------------------------
// The document store
// ---------------------------------------------------------------------------

/// The in-memory document collection behind the query layer.
///
/// The documents are kept in the fixed sort order of result sets
/// (creation stamp descending, identifier ascending) with pairwise
/// distinct identifiers, so every read pages over an already ordered
/// set.
pub struct Store {
    samples: Vec<Sample>,
}

impl View for Store {
    type V = Seq<SampleV>;

    closed spec fn view(&self) -> Seq<SampleV> {
        self.samples.deep_view()
    }
}

/// The well-formedness of a store's contents: sorted, with pairwise
/// distinct identifiers, every document itself well formed.
pub open spec fn wf_store(S: Seq<SampleV>) -> bool {
    &&& sorted_samples(S)
    &&& unique_sample_ids(S)
    &&& forall|i: int| 0 <= i < S.len() ==> wf_sample(#[trigger] S[i])
}

/// The first index holding the document with identifier `id`, or the
/// length when none does.
pub open spec fn find_sample(S: Seq<SampleV>, id: Seq<u8>) -> int
    decreases S.len(),
{
    if S.len() == 0 {
        0
    } else if S[0].id == id {
        0
    } else {
        1 + find_sample(S.skip(1), id)
    }
}

/// Whether a document with identifier `id` exists.
pub open spec fn has_sample(S: Seq<SampleV>, id: Seq<u8>) -> bool {
    find_sample(S, id) < S.len()
}

/// The document with identifier `id`.
pub open spec fn sample_at(S: Seq<SampleV>, id: Seq<u8>) -> SampleV {
    S[find_sample(S, id)]
}

/// An index below which no document has `id`, and which (unless it is
/// the length) holds `id`, is exactly `find_sample`.
pub proof fn lemma_find_sample_found(S: Seq<SampleV>, id: Seq<u8>, k: int)
    requires
        0 <= k <= S.len(),
        forall|j: int| 0 <= j < k ==> (#[trigger] S[j]).id != id,
        k < S.len() ==> S[k].id == id,
    ensures
        find_sample(S, id) == k,
    decreases S.len(),
{
    if S.len() == 0 {
    } else if S[0].id == id {
        assert(k == 0) by {
            if k > 0 {
                assert(S[0].id != id);
            }
        }
    } else {
        assert(k >= 1);
        let t = S.skip(1);
        assert(forall|j: int| 0 <= j < k - 1 ==> (#[trigger] t[j]).id != id);
        assert(k - 1 < t.len() ==> t[k - 1].id == id);
        lemma_find_sample_found(t, id, k - 1);
    }
}

/// `find_sample` stays in range, indices below it never hold `id`, and
/// the document at it (when there is one) does.
pub proof fn lemma_find_sample_char(S: Seq<SampleV>, id: Seq<u8>)
    ensures
        0 <= find_sample(S, id) <= S.len(),
        forall|j: int| 0 <= j < find_sample(S, id) ==> (#[trigger] S[j]).id != id,
        find_sample(S, id) < S.len() ==> S[find_sample(S, id)].id == id,
    decreases S.len(),
{
    if S.len() > 0 && S[0].id != id {
        let t = S.skip(1);
        lemma_find_sample_char(t, id);
        let fe = find_sample(S, id);
        assert(fe == 1 + find_sample(t, id));
        assert forall|j: int| 0 <= j < fe implies (#[trigger] S[j]).id != id by {
            if j >= 1 {
                assert(t[j - 1] == S[j]);
                assert(t[j - 1].id != id);
            }
        }
        if fe < S.len() {
            assert(t[fe - 1] == S[fe]);
        }
    }
}

// ---------------------------------------------------------------------------
// Filtering
// ---------------------------------------------------------------------------

/// The subsequence of `S` that the filter selects, in order.
pub open spec fn filter_seq(S: Seq<SampleV>, f: FilterV) -> Seq<SampleV>
    decreases S.len(),
{
    if S.len() == 0 {
        Seq::empty()
    } else {
        filter_seq(S.drop_last(), f) + (if filter_matches(f, S.last()) {
            seq![S.last()]
        } else {
            Seq::empty()
        })
    }
}

/// Whether `e` occurs in `S`.
pub open spec fn among_samples(e: SampleV, S: Seq<SampleV>) -> bool {
    exists|i: int| 0 <= i < S.len() && (#[trigger] S[i]) == e
}

/// Each selected document occurs in the collection, and exactly the
/// matching documents are selected.
pub proof fn lemma_filter_seq_among(S: Seq<SampleV>, f: FilterV)
    ensures
        forall|j: int|
            0 <= j < filter_seq(S, f).len() ==> among_samples(#[trigger] filter_seq(S, f)[j], S),
        forall|j: int|
            0 <= j < filter_seq(S, f).len() ==> filter_matches(f, #[trigger] filter_seq(S, f)[j]),
    decreases S.len(),
{
    if S.len() > 0 {
        let p = S.drop_last();
        lemma_filter_seq_among(p, f);
        let fs = filter_seq(S, f);
        assert forall|j: int| 0 <= j < fs.len() implies among_samples(#[trigger] fs[j], S)
            && filter_matches(f, fs[j]) by {
            let fp = filter_seq(p, f);
            if j < fp.len() {
                assert(fs[j] == fp[j]);
                assert(among_samples(fp[j], p));
                let i = choose|i: int| 0 <= i < p.len() && (#[trigger] p[i]) == fp[j];
                assert(S[i] == p[i]);
            } else {
                assert(filter_matches(f, S.last()));
                assert(fs[j] == S.last());
                assert(S[S.len() - 1] == S.last());
            }
        }
    }
}

/// Filtering a sorted collection with distinct identifiers yields a
/// sorted selection with distinct identifiers.
pub proof fn lemma_filter_seq_wf(S: Seq<SampleV>, f: FilterV)
    requires
        sorted_samples(S),
        unique_sample_ids(S),
    ensures
        sorted_samples(filter_seq(S, f)),
        unique_sample_ids(filter_seq(S, f)),
    decreases S.len(),
{
    if S.len() > 0 {
        let p = S.drop_last();
        assert(sorted_samples(p)) by {
            assert forall|i: int, j: int|
                0 <= i < j < p.len() implies sample_le(#[trigger] p[i], #[trigger] p[j]) by {
                assert(p[i] == S[i] && p[j] == S[j]);
            }
        }
        assert(unique_sample_ids(p)) by {
            assert forall|i: int, j: int|
                0 <= i < j < p.len() implies (#[trigger] p[i]).id != (#[trigger] p[j]).id by {
                assert(p[i] == S[i] && p[j] == S[j]);
            }
        }
        lemma_filter_seq_wf(p, f);
        lemma_filter_seq_among(p, f);
        let fp = filter_seq(p, f);
        let fs = filter_seq(S, f);
        assert forall|i: int, j: int|
            0 <= i < j < fs.len() implies sample_le(#[trigger] fs[i], #[trigger] fs[j]) && (
        fs[i]).id != (fs[j]).id by {
            if j < fp.len() {
                assert(fs[i] == fp[i] && fs[j] == fp[j]);
            } else {
                assert(filter_matches(f, S.last()));
                assert(fs[j] == S.last());
                assert(fs[i] == fp[i]);
                assert(among_samples(fp[i], p));
                let t = choose|t: int| 0 <= t < p.len() && (#[trigger] p[t]) == fp[i];
                assert(p[t] == S[t]);
                assert(sample_le(S[t], S[S.len() - 1]));
                assert(S[t].id != S[S.len() - 1].id);
                assert(S[S.len() - 1] == S.last());
            }
        }
    }
}

impl Store {
    /// An empty collection.
    pub fn new() -> (r: Store)
        ensures
            r@ =~= Seq::<SampleV>::empty(),
    {
        Store { samples: Vec::new() }
    }

    /// The documents, in the fixed sort order.
    pub fn samples(&self) -> (r: &Vec<Sample>)
        ensures
            r.deep_view() == self@,
    {
        &self.samples
    }

    /// Looks one document up by identifier; identifier-keyed reads are
    /// never cached, so this always reflects the store's current state.
    pub fn find_one_by_id(&self, id: &Id) -> (r: Option<Sample>)
        ensures
            match r {
                Some(s) => has_sample(self@, id@) && s@ == sample_at(self@, id@),
                None => !has_sample(self@, id@),
            },
    {
        let ghost S = self@;
        let mut i: usize = 0;
        while i < self.samples.len()
            invariant
                0 <= i <= S.len(),
                S == self@,
                S.len() == self.samples@.len(),
                forall|j: int| 0 <= j < i ==> (#[trigger] S[j]).id != id@,
            decreases S.len() - i,
        {
            let s = &self.samples[i];
            proof {
                assert(s@ == S[i as int]);
            }
            if s.id.same_as(id) {
                proof {
                    lemma_find_sample_found(S, id@, i as int);
                }
                return Some(s.clone());
            }
            i = i + 1;
        }
        proof {
            lemma_find_sample_found(S, id@, S.len() as int);
        }
        None
    }

    /// A paged read: the documents the filter selects, in the fixed
    /// order, paged by the cursor window, offset and limit, with the
    /// pagination metadata and the total count of the whole selection.
    pub fn find(
        &self,
        filter: &Filter,
        after: &Option<Cursor>,
        before: &Option<Cursor>,
        skip: usize,
        limit: &Option<usize>,
    ) -> (c: SampleConnection)
        ensures
            c@ == connection_spec(
                filter_seq(self@, filter@),
                opt_cursor_view(*after),
                opt_cursor_view(*before),
                skip as int,
                opt_limit_view(*limit),
            ),
    {
        let ghost S = self@;
        let mut matching: Vec<Sample> = Vec::new();
        let mut i: usize = 0;
        while i < self.samples.len()
            invariant
                0 <= i <= S.len(),
                S == self@,
                S.len() == self.samples@.len(),
                matching.deep_view() == filter_seq(S.take(i as int), filter@),
            decreases S.len() - i,
        {
            let s = &self.samples[i];
            proof {
                assert(s@ == S[i as int]);
                assert(S.take(i + 1).drop_last() =~= S.take(i as int));
                assert(S.take(i + 1).last() == S[i as int]);
            }
            let ghost prev = matching.deep_view();
            if sample_matches(filter, s) {
                matching.push(s.clone());
                proof {
                    assert forall|k: int|
                        0 <= k < matching.deep_view().len() implies matching.deep_view()[k]
                        == filter_seq(S.take(i + 1), filter@)[k] by {
                        if k < prev.len() {
                            assert(matching@[k] == matching@.subrange(0, prev.len() as int)[k]);
                            assert(matching.deep_view()[k] == prev[k]);
                        }
                    }
                    assert(matching.deep_view() =~= filter_seq(S.take(i + 1), filter@));
                }
            } else {
                proof {
                    assert(matching.deep_view() =~= filter_seq(S.take(i + 1), filter@));
                }
            }
            i = i + 1;
        }
        proof {
            assert(S.take(S.len() as int) =~= S);
        }
        build_connection(&matching, after, before, skip, limit)
    }
}

// ---------------------------------------------------------------------------
// Shapes of mutated documents
// ---------------------------------------------------------------------------

/// The document a creation inserts: the chosen identifier, audit
/// metadata stamped at `now` for `actor`, the given fields, and no
/// embedded values yet.
pub open spec fn new_sample_doc(
    n: NewSampleV,
    id: Seq<u8>,
    actor: Option<Seq<u8>>,
    now: u64,
) -> SampleV {
    SampleV {
        id,
        node: stamped_node(now, actor),
        name: n.name,
        description: n.description,
        available_date: match n.available_date {
            Some(d) => Some(d as i64),
            None => None,
        },
        expiration_date: match n.expiration_date {
            Some(d) => Some(d as i64),
            None => None,
        },
        values: Seq::empty(),
    }
}

/// Audit metadata after a mutation at `now` by `actor`: the creation
/// stamp stays, the modification stamp becomes `now` (never receding
/// behind the creation stamp), and the updating actor is recorded when
/// supplied.
pub open spec fn touched_node(n: NodeV, actor: Option<Seq<u8>>, now: u64) -> NodeV {
    NodeV {
        created: n.created,
        modified: if now >= n.created {
            now
        } else {
            n.created
        },
        created_by: n.created_by,
        updated_by: match actor {
            Some(a) => Some(a),
            None => n.updated_by,
        },
    }
}

/// A sample after a partial patch: only the fields present in the patch
/// change, and the audit metadata is touched.
pub open spec fn patched_sample(
    s: SampleV,
    u: UpdateSampleV,
    actor: Option<Seq<u8>>,
    now: u64,
) -> SampleV {
    SampleV {
        id: s.id,
        node: touched_node(s.node, actor, now),
        name: match u.name {
            Some(n) => n,
            None => s.name,
        },
        description: match u.description {
            Some(d) => Some(d),
            None => s.description,
        },
        available_date: match u.available_date {
            Some(d) => Some(d as i64),
            None => s.available_date,
        },
        expiration_date: match u.expiration_date {
            Some(d) => Some(d as i64),
            None => s.expiration_date,
        },
        values: s.values,
    }
}

/// Builds the audit touch of `touched_node`.
fn touch_node(n: &NodeDetails, actor: Option<Id>, now: u64) -> (r: NodeDetails)
    ensures
        r@ == touched_node(n@, opt_id_view(actor), now),
{
    let r = NodeDetails {
        date_created: n.date_created,
        date_modified: if now >= n.date_created {
            now
        } else {
            n.date_created
        },
        created_by_id: clone_opt_id(&n.created_by_id),
        updated_by_id: match actor {
            Some(a) => Some(a),
            None => clone_opt_id(&n.updated_by_id),
        },
    };
    proof {
        assert(r@ =~= touched_node(n@, opt_id_view(actor), now));
    }
    r
}

// ---------------------------------------------------------------------------
// Sorted insertion
// ---------------------------------------------------------------------------

/// The index where a new document belongs: before the first resident
/// document it is strictly ordered before.
pub open spec fn insert_pos(S: Seq<SampleV>, s: SampleV) -> int
    decreases S.len(),
{
    if S.len() == 0 {
        0
    } else if sample_lt(s, S[0]) {
        0
    } else {
        1 + insert_pos(S.skip(1), s)
    }
}

/// The inserted collection.
pub open spec fn insert_sorted(S: Seq<SampleV>, s: SampleV) -> Seq<SampleV> {
    S.insert(insert_pos(S, s), s)
}

/// An index below which nothing is ordered after `s`, and at which
/// (unless it is the length) something is, is exactly `insert_pos`.
pub proof fn lemma_insert_pos_found(S: Seq<SampleV>, s: SampleV, k: int)
    requires
        0 <= k <= S.len(),
        forall|j: int| 0 <= j < k ==> !sample_lt(s, #[trigger] S[j]),
        k < S.len() ==> sample_lt(s, S[k]),
    ensures
        insert_pos(S, s) == k,
    decreases S.len(),
{
    if S.len() == 0 {
    } else if sample_lt(s, S[0]) {
        assert(k == 0) by {
            if k > 0 {
                assert(!sample_lt(s, S[0]));
            }
        }
    } else {
        assert(k >= 1);
        let t = S.skip(1);
        assert(forall|j: int| 0 <= j < k - 1 ==> !sample_lt(s, #[trigger] t[j]));
        assert(k - 1 < t.len() ==> sample_lt(s, t[k - 1]));
        lemma_insert_pos_found(t, s, k - 1);
    }
}

/// `insert_pos` stays in range, nothing below it is ordered after `s`,
/// and the document at it (when there is one) is.
pub proof fn lemma_insert_pos_char(S: Seq<SampleV>, s: SampleV)
    ensures
        0 <= insert_pos(S, s) <= S.len(),
        forall|j: int| 0 <= j < insert_pos(S, s) ==> !sample_lt(s, #[trigger] S[j]),
        insert_pos(S, s) < S.len() ==> sample_lt(s, S[insert_pos(S, s)]),
    decreases S.len(),
{
    if S.len() > 0 && !sample_lt(s, S[0]) {
        let t = S.skip(1);
        lemma_insert_pos_char(t, s);
        let p = insert_pos(S, s);
        assert(p == 1 + insert_pos(t, s));
        assert forall|j: int| 0 <= j < p implies !sample_lt(s, #[trigger] S[j]) by {
            if j >= 1 {
                assert(t[j - 1] == S[j]);
                assert(!sample_lt(s, t[j - 1]));
            }
        }
        if p < S.len() {
            assert(t[p - 1] == S[p]);
        }
    }
}

// ---------------------------------------------------------------------------
// Well-formedness under mutation
// ---------------------------------------------------------------------------

/// Replacing a document by one with the same identifier and creation
/// stamp keeps the collection well formed.
proof fn lemma_update_keeps_wf(S: Seq<SampleV>, i: int, s2: SampleV)
    requires
        wf_store(S),
        0 <= i < S.len(),
        s2.id == S[i].id,
        s2.node.created == S[i].node.created,
        wf_sample(s2),
    ensures
        wf_store(S.update(i, s2)),
{
    let T = S.update(i, s2);
    assert forall|a: int, b: int|
        0 <= a < b < T.len() implies sample_le(#[trigger] T[a], #[trigger] T[b]) && T[a].id
        != T[b].id by {
        assert(sample_le(S[a], S[b]));
        assert(S[a].id != S[b].id);
        assert(T[a].id == S[a].id && T[a].node.created == S[a].node.created);
        assert(T[b].id == S[b].id && T[b].node.created == S[b].node.created);
    }
    assert forall|a: int| 0 <= a < T.len() implies wf_sample(#[trigger] T[a]) by {
        if a != i {
            assert(T[a] == S[a]);
        }
    }
}

/// Removing a document keeps the collection well formed.
proof fn lemma_remove_keeps_wf(S: Seq<SampleV>, i: int)
    requires
        wf_store(S),
        0 <= i < S.len(),
    ensures
        wf_store(S.remove(i)),
{
    S.remove_ensures(i);
    let T = S.remove(i);
    assert forall|a: int, b: int|
        0 <= a < b < T.len() implies sample_le(#[trigger] T[a], #[trigger] T[b]) && T[a].id
        != T[b].id by {
        if a < i {
            assert(T[a] == S[a]);
        } else {
            assert(T[a] == S[a + 1]);
        }
        if b < i {
            assert(T[b] == S[b]);
        } else {
            assert(T[b] == S[b + 1]);
        }
    }
    assert forall|a: int| 0 <= a < T.len() implies wf_sample(#[trigger] T[a]) by {
        if a < i {
            assert(T[a] == S[a]);
        } else {
            assert(T[a] == S[a + 1]);
        }
    }
}

/// Inserting a well-formed document with a fresh identifier at its
/// sorted position keeps the collection well formed.
proof fn lemma_insert_keeps_wf(S: Seq<SampleV>, s2: SampleV)
    requires
        wf_store(S),
        wf_sample(s2),
        forall|j: int| 0 <= j < S.len() ==> (#[trigger] S[j]).id != s2.id,
    ensures
        wf_store(insert_sorted(S, s2)),
{
    lemma_insert_pos_char(S, s2);
    let p = insert_pos(S, s2);
    S.insert_ensures(p, s2);
    let T = S.insert(p, s2);
    assert forall|j: int| 0 <= j < p implies sample_lt(#[trigger] S[j], s2) by {
        lemma_sample_order_total(s2, S[j]);
    }
    assert forall|j: int| p <= j < S.len() implies sample_lt(s2, #[trigger] S[j]) by {
        if j > p {
            assert(sample_le(S[p], S[j]));
            lemma_sample_lt_le_trans(s2, S[p], S[j]);
        }
    }
    assert forall|a: int, b: int|
        0 <= a < b < T.len() implies sample_le(#[trigger] T[a], #[trigger] T[b]) && T[a].id
        != T[b].id by {
        if a < p {
            assert(T[a] == S[a]);
        } else if a == p {
            assert(T[a] == s2);
        } else {
            assert(T[a] == S[a - 1]);
        }
        if b < p {
            assert(T[b] == S[b]);
        } else if b == p {
            assert(T[b] == s2);
        } else {
            assert(T[b] == S[b - 1]);
        }
    }
    assert forall|a: int| 0 <= a < T.len() implies wf_sample(#[trigger] T[a]) by {
        if a < p {
            assert(T[a] == S[a]);
        } else if a > p {
            assert(T[a] == S[a - 1]);
        }
    }
}

// ---------------------------------------------------------------------------
// Top-level mutations
// ---------------------------------------------------------------------------

impl Store {
    /// The index of the document with identifier `id`, if present.
    fn position_of(&self, id: &Id) -> (r: Option<usize>)
        ensures
            match r {
                Some(i) => i as int == find_sample(self@, id@) && (i as int) < self@.len(),
                None => !has_sample(self@, id@),
            },
    {
        let ghost S = self@;
        let mut i: usize = 0;
        while i < self.samples.len()
            invariant
                0 <= i <= S.len(),
                S == self@,
                S.len() == self.samples@.len(),
                forall|j: int| 0 <= j < i ==> (#[trigger] S[j]).id != id@,
            decreases S.len() - i,
        {
            proof {
                assert(self.samples[i as int]@ == S[i as int]);
            }
            if self.samples[i].id.same_as(id) {
                proof {
                    lemma_find_sample_found(S, id@, i as int);
                }
                return Some(i);
            }
            i = i + 1;
        }
        proof {
            lemma_find_sample_found(S, id@, S.len() as int);
        }
        None
    }

    /// A length no identifier in the collection exceeds.
    fn max_id_len(&self) -> (r: usize)
        ensures
            forall|j: int| 0 <= j < self@.len() ==> (#[trigger] self@[j]).id.len() <= r,
    {
        let ghost S = self@;
        let mut m: usize = 0;
        let mut i: usize = 0;
        while i < self.samples.len()
            invariant
                0 <= i <= S.len(),
                S == self@,
                S.len() == self.samples@.len(),
                forall|j: int| 0 <= j < i ==> (#[trigger] S[j]).id.len() <= m,
            decreases S.len() - i,
        {
            proof {
                assert(self.samples[i as int]@ == S[i as int]);
            }
            let l = self.samples[i].id.bytes().len();
            if l > m {
                m = l;
            }
            i = i + 1;
        }
        m
    }

    /// Creates a document.
    ///
    /// Fails with `DuplicateKey` exactly when the supplied identifier
    /// already names a document, leaving the collection untouched.
    /// Otherwise the document enters at its sorted position with audit
    /// metadata stamped at `now` for `created_by_id`; a missing
    /// identifier gets a freshly generated one that names nothing yet.
    pub fn insert_one(
        &mut self,
        new_sample: NewSample,
        created_by_id: Option<Id>,
        now: u64,
    ) -> (r: Result<Id, ServiceError>)
        requires
            wf_store(old(self)@),
        ensures
            wf_store(final(self)@),
            match r {
                Err(e) => {
                    &&& e == ServiceError::DuplicateKey
                    &&& final(self)@ == old(self)@
                    &&& new_sample@.id matches Some(i) && has_sample(old(self)@, i)
                },
                Ok(id) => {
                    &&& !has_sample(old(self)@, id@)
                    &&& match new_sample@.id {
                        Some(i) => id@ == i,
                        None => true,
                    }
                    &&& final(self)@ == insert_sorted(
                        old(self)@,
                        new_sample_doc(new_sample@, id@, opt_id_view(created_by_id), now),
                    )
                },
            },
    {
        let ghost S0 = self@;
        let ghost nv = new_sample@;
        let NewSample { id: given_id, name, description, available_date, expiration_date } =
            new_sample;
        let chosen: Id = match given_id {
            Some(g) => {
                match self.position_of(&g) {
                    Some(_) => {
                        return Err(ServiceError::DuplicateKey);
                    },
                    None => g,
                }
            },
            None => {
                let pad = self.max_id_len();
                let g = gen_id(pad, 0);
                proof {
                    lemma_find_sample_char(S0, g@);
                    if has_sample(S0, g@) {
                        assert(S0[find_sample(S0, g@)].id == g@);
                        assert(S0[find_sample(S0, g@)].id.len() <= pad);
                    }
                }
                g
            },
        };
        proof {
            assert(!has_sample(S0, chosen@));
        }
        let id_copy = chosen.clone();
        let doc = Sample {
            id: chosen,
            node: NodeDetails::stamp(now, created_by_id),
            name,
            description,
            available_date: match available_date {
                Some(d) => Some(d as i64),
                None => None,
            },
            expiration_date: match expiration_date {
                Some(d) => Some(d as i64),
                None => None,
            },
            values: Vec::new(),
        };
        let ghost docv = new_sample_doc(nv, id_copy@, opt_id_view(created_by_id), now);
        proof {
            assert(doc.values.deep_view() =~= Seq::<EmbeddedV>::empty());
            assert(doc@ =~= docv);
        }
        let mut pos: usize = 0;
        while pos < self.samples.len() && !sample_before(&doc, &self.samples[pos])
            invariant
                0 <= pos <= S0.len(),
                self@ == S0,
                S0.len() == self.samples@.len(),
                doc@ == docv,
                forall|j: int| 0 <= j < pos ==> !sample_lt(docv, #[trigger] S0[j]),
            decreases S0.len() - pos,
        {
            pos = pos + 1;
        }
        proof {
            lemma_insert_pos_found(S0, docv, pos as int);
        }
        let ghost V0 = self.samples@;
        self.samples.insert(pos, doc);
        proof {
            V0.insert_ensures(pos as int, doc);
            S0.insert_ensures(pos as int, docv);
            assert forall|k: int|
                0 <= k < self@.len() implies self@[k] == S0.insert(pos as int, docv)[k] by {
                assert(self@[k] == self.samples@[k]@);
                if k < pos {
                    assert(self.samples@[k] == V0[k]);
                    assert(V0[k]@ == S0[k]);
                } else if k == pos {
                    assert(self.samples@[k] == doc);
                } else {
                    assert(self.samples@[k] == V0[k - 1]);
                    assert(V0[k - 1]@ == S0[k - 1]);
                }
            }
            assert(self@ =~= S0.insert(pos as int, docv));
            assert(forall|j: int| 0 <= j < S0.len() ==> (#[trigger] S0[j]).id != docv.id) by {
                lemma_find_sample_char(S0, docv.id);
            }
            lemma_insert_keeps_wf(S0, docv);
        }
        Ok(id_copy)
    }

    /// Applies a partial patch to the document with identifier `id`.
    ///
    /// Fails with `NotFound` exactly when `id` names nothing, leaving
    /// the collection untouched. Otherwise only the fields present in
    /// the patch change, the audit metadata is touched at `now` for
    /// `updated_by_id`, and the patched document is returned.
    pub fn update_one(
        &mut self,
        id: &Id,
        update: &UpdateSample,
        updated_by_id: Option<Id>,
        now: u64,
    ) -> (r: Result<Sample, ServiceError>)
        requires
            wf_store(old(self)@),
        ensures
            wf_store(final(self)@),
            match r {
                Err(e) => {
                    &&& e == ServiceError::NotFound
                    &&& !has_sample(old(self)@, id@)
                    &&& final(self)@ == old(self)@
                },
                Ok(s) => {
                    &&& has_sample(old(self)@, id@)
                    &&& s@ == patched_sample(
                        sample_at(old(self)@, id@),
                        update@,
                        opt_id_view(updated_by_id),
                        now,
                    )
                    &&& final(self)@ == old(self)@.update(find_sample(old(self)@, id@), s@)
                },
            },
    {
        let ghost S0 = self@;
        let i = match self.position_of(id) {
            None => {
                return Err(ServiceError::NotFound);
            },
            Some(i) => i,
        };
        let ghost target = S0[i as int];
        let ghost pv = patched_sample(target, update@, opt_id_view(updated_by_id), now);
        let old_s = &self.samples[i];
        proof {
            assert(old_s@ == target);
        }
        let patched = Sample {
            id: old_s.id.clone(),
            node: touch_node(&old_s.node, updated_by_id, now),
            name: match &update.name {
                Some(n) => n.clone(),
                None => old_s.name.clone(),
            },
            description: match &update.description {
                Some(d) => Some(d.clone()),
                None => clone_opt_string(&old_s.description),
            },
            available_date: match update.available_date {
                Some(d) => Some(d as i64),
                None => old_s.available_date,
            },
            expiration_date: match update.expiration_date {
                Some(d) => Some(d as i64),
                None => old_s.expiration_date,
            },
            values: clone_values(&old_s.values),
        };
        proof {
            assert(patched@ =~= pv);
        }
        let result = patched.clone();
        let ghost V0 = self.samples@;
        self.samples.set(i, patched);
        proof {
            assert forall|k: int|
                0 <= k < self@.len() implies self@[k] == S0.update(i as int, pv)[k] by {
                assert(self@[k] == self.samples@[k]@);
                if k != i {
                    assert(self.samples@[k] == V0[k]);
                    assert(V0[k]@ == S0[k]);
                }
            }
            assert(self@ =~= S0.update(i as int, pv));
            lemma_update_keeps_wf(S0, i as int, pv);
        }
        Ok(result)
    }

    /// Deletes the document with identifier `id`.
    ///
    /// Deleting a missing identifier is reported as an unsuccessful —
    /// not erroring — outcome, and changes nothing.
    pub fn delete_one_by_id(&mut self, id: &Id) -> (r: DeleteResponse)
        requires
            wf_store(old(self)@),
        ensures
            wf_store(final(self)@),
            r.id@ == id@,
            r.success == has_sample(old(self)@, id@),
            final(self)@ == if has_sample(old(self)@, id@) {
                old(self)@.remove(find_sample(old(self)@, id@))
            } else {
                old(self)@
            },
    {
        let ghost S0 = self@;
        match self.position_of(id) {
            None => DeleteResponse { id: id.clone(), success: false },
            Some(i) => {
                let ghost V0 = self.samples@;
                let _ = self.samples.remove(i);
                proof {
                    V0.remove_ensures(i as int);
                    S0.remove_ensures(i as int);
                    assert forall|k: int|
                        0 <= k < self@.len() implies self@[k] == S0.remove(i as int)[k] by {
                        assert(self@[k] == self.samples@[k]@);
                        if k < i {
                            assert(self.samples@[k] == V0[k]);
                            assert(V0[k]@ == S0[k]);
                        } else {
                            assert(self.samples@[k] == V0[k + 1]);
                            assert(V0[k + 1]@ == S0[k + 1]);
                        }
                    }
                    assert(self@ =~= S0.remove(i as int));
                    lemma_remove_keeps_wf(S0, i as int);
                }
                DeleteResponse { id: id.clone(), success: true }
            },
        }
    }
}

// ---------------------------------------------------------------------------
// Embedded values
// ---------------------------------------------------------------------------

/// The first index of the embedded value with identifier `id`, or the
/// length when none has it.
pub open spec fn find_value(vs: Seq<EmbeddedV>, id: Seq<u8>) -> int
    decreases vs.len(),
{
    if vs.len() == 0 {
        0
    } else if vs[0].id == id {
        0
    } else {
        1 + find_value(vs.skip(1), id)
    }
}

/// Whether an embedded value with identifier `id` exists.
pub open spec fn has_value(vs: Seq<EmbeddedV>, id: Seq<u8>) -> bool {
    find_value(vs, id) < vs.len()
}

/// An index below which no embedded value has `id`, and which (unless it
/// is the length) holds `id`, is exactly `find_value`.
pub proof fn lemma_find_value_found(vs: Seq<EmbeddedV>, id: Seq<u8>, k: int)
    requires
        0 <= k <= vs.len(),
        forall|j: int| 0 <= j < k ==> (#[trigger] vs[j]).id != id,
        k < vs.len() ==> vs[k].id == id,
    ensures
        find_value(vs, id) == k,
    decreases vs.len(),
{
    if vs.len() == 0 {
    } else if vs[0].id == id {
        assert(k == 0) by {
            if k > 0 {
                assert(vs[0].id != id);
            }
        }
    } else {
        assert(k >= 1);
        let t = vs.skip(1);
        assert(forall|j: int| 0 <= j < k - 1 ==> (#[trigger] t[j]).id != id);
        assert(k - 1 < t.len() ==> t[k - 1].id == id);
        lemma_find_value_found(t, id, k - 1);
    }
}

/// `find_value` stays in range, indices below it never hold `id`, and
/// the value at it (when there is one) does.
pub proof fn lemma_find_value_char(vs: Seq<EmbeddedV>, id: Seq<u8>)
    ensures
        0 <= find_value(vs, id) <= vs.len(),
        forall|j: int| 0 <= j < find_value(vs, id) ==> (#[trigger] vs[j]).id != id,
        find_value(vs, id) < vs.len() ==> vs[find_value(vs, id)].id == id,
    decreases vs.len(),
{
    if vs.len() > 0 && vs[0].id != id {
        let t = vs.skip(1);
        lemma_find_value_char(t, id);
        let fe = find_value(vs, id);
        assert(fe == 1 + find_value(t, id));
        assert forall|j: int| 0 <= j < fe implies (#[trigger] vs[j]).id != id by {
            if j >= 1 {
                assert(t[j - 1] == vs[j]);
                assert(t[j - 1].id != id);
            }
        }
        if fe < vs.len() {
            assert(t[fe - 1] == vs[fe]);
        }
    }
}

/// The embedded value a batch insertion appends for the input `n` under
/// the identifier `id`.
pub open spec fn embedded_doc(
    n: NewEmbeddedV,
    id: Seq<u8>,
    actor: Option<Seq<u8>>,
    now: u64,
) -> EmbeddedV {
    EmbeddedV { id, node: stamped_node(now, actor), embedded_type: n.embedded_type, value: n.value }
}

/// An embedded value after a partial patch: only the fields present in
/// the patch change, and the audit metadata is touched.
pub open spec fn patched_embedded(
    e: EmbeddedV,
    u: UpdateEmbedded,
    actor: Option<Seq<u8>>,
    now: u64,
) -> EmbeddedV {
    EmbeddedV {
        id: e.id,
        node: touched_node(e.node, actor, now),
        embedded_type: match u.embedded_type {
            Some(t) => t,
            None => e.embedded_type,
        },
        value: match u.value {
            Some(v) => Some(v),
            None => e.value,
        },
    }
}

/// The parent document with its embedded values replaced by `vs` and
/// its modification stamp touched at `now`.
pub open spec fn parent_with_values(s: SampleV, vs: Seq<EmbeddedV>, now: u64) -> SampleV {
    SampleV {
        id: s.id,
        node: touched_node(s.node, None, now),
        name: s.name,
        description: s.description,
        available_date: s.available_date,
        expiration_date: s.expiration_date,
        values: vs,
    }
}

/// Whether a batch of new embedded values clashes with the values
/// already present, or within itself: a supplied identifier that
/// already exists, or two entries supplying the same identifier.
pub open spec fn add_conflict(vs: Seq<EmbeddedV>, nvs: Seq<NewEmbeddedV>) -> bool {
    ||| exists|j: int| 0 <= j < nvs.len() && dup_with_existing(vs, #[trigger] nvs[j])
    ||| exists|j: int, k: int|
        0 <= k < j < nvs.len() && dup_pair(#[trigger] nvs[j], #[trigger] nvs[k])
}

/// Whether the entry supplies an identifier that already names an
/// existing embedded value.
pub open spec fn dup_with_existing(vs: Seq<EmbeddedV>, n: NewEmbeddedV) -> bool {
    n.id matches Some(g) && has_value(vs, g)
}

/// Whether two entries supply the same identifier.
pub open spec fn dup_pair(a: NewEmbeddedV, b: NewEmbeddedV) -> bool {
    a.id is Some && a.id == b.id
}

/// The index of the embedded value with identifier `id` in `values`, if
/// present.
fn position_of_value(values: &Vec<Embedded>, id: &Id) -> (r: Option<usize>)
    ensures
        match r {
            Some(i) => i as int == find_value(values.deep_view(), id@) && (i as int)
                < values.deep_view().len(),
            None => !has_value(values.deep_view(), id@),
        },
{
    let ghost vs = values.deep_view();
    let mut i: usize = 0;
    while i < values.len()
        invariant
            0 <= i <= vs.len(),
            vs == values.deep_view(),
            vs.len() == values@.len(),
            forall|j: int| 0 <= j < i ==> (#[trigger] vs[j]).id != id@,
        decreases vs.len() - i,
    {
        proof {
            assert(values[i as int]@ == vs[i as int]);
        }
        if values[i].id.same_as(id) {
            proof {
                lemma_find_value_found(vs, id@, i as int);
            }
            return Some(i);
        }
        i = i + 1;
    }
    proof {
        lemma_find_value_found(vs, id@, vs.len() as int);
    }
    None
}

/// A length that no identifier among the existing embedded values or
/// the supplied batch identifiers exceeds.
fn batch_pad(values: &Vec<Embedded>, new_values: &Vec<NewEmbedded>) -> (r: usize)
    ensures
        forall|j: int|
            0 <= j < values.deep_view().len() ==> (#[trigger] values.deep_view()[j]).id.len() <= r,
        forall|j: int|
            0 <= j < new_values.deep_view().len() ==> match (#[trigger] new_values.deep_view()[j]).id {
                Some(g) => g.len() <= r,
                None => true,
            },
{
    let ghost vs = values.deep_view();
    let ghost nvs = new_values.deep_view();
    let mut m: usize = 0;
    let mut i: usize = 0;
    while i < values.len()
        invariant
            0 <= i <= vs.len(),
            vs == values.deep_view(),
            vs.len() == values@.len(),
            forall|j: int| 0 <= j < i ==> (#[trigger] vs[j]).id.len() <= m,
        decreases vs.len() - i,
    {
        proof {
            assert(values[i as int]@ == vs[i as int]);
        }
        let l = values[i].id.bytes().len();
        if l > m {
            m = l;
        }
        i = i + 1;
    }
    let mut k: usize = 0;
    while k < new_values.len()
        invariant
            0 <= k <= nvs.len(),
            nvs == new_values.deep_view(),
            nvs.len() == new_values@.len(),
            forall|j: int| 0 <= j < vs.len() ==> (#[trigger] vs[j]).id.len() <= m,
            forall|j: int| 0 <= j < k ==> match (#[trigger] nvs[j]).id {
                Some(g) => g.len() <= m,
                None => true,
            },
        decreases nvs.len() - k,
    {
        proof {
            assert(new_values[k as int]@ == nvs[k as int]);
        }
        match &new_values[k].id {
            Some(g) => {
                let l = g.bytes().len();
                if l > m {
                    m = l;
                }
            },
            None => {},
        }
        k = k + 1;
    }
    m
}

/// Decides `add_conflict`.
fn check_add_conflict(values: &Vec<Embedded>, new_values: &Vec<NewEmbedded>) -> (r: bool)
    ensures
        r == add_conflict(values.deep_view(), new_values.deep_view()),
{
    let ghost vs = values.deep_view();
    let ghost nvs = new_values.deep_view();
    let mut j: usize = 0;
    while j < new_values.len()
        invariant
            0 <= j <= nvs.len(),
            vs == values.deep_view(),
            nvs == new_values.deep_view(),
            nvs.len() == new_values@.len(),
            forall|a: int| 0 <= a < j ==> !dup_with_existing(vs, #[trigger] nvs[a]),
            forall|a: int, b: int| 0 <= b < a < j ==> !dup_pair(#[trigger] nvs[a], #[trigger] nvs[b]),
        decreases nvs.len() - j,
    {
        proof {
            assert(new_values[j as int]@ == nvs[j as int]);
        }
        match &new_values[j].id {
            Some(g) => {
                match position_of_value(values, g) {
                    Some(_) => {
                        proof {
                            assert(dup_with_existing(vs, nvs[j as int]));
                        }
                        return true;
                    },
                    None => {},
                }
                let mut k: usize = 0;
                while k < j
                    invariant
                        0 <= k <= j < nvs.len(),
                        nvs == new_values.deep_view(),
                        nvs.len() == new_values@.len(),
                        nvs[j as int].id matches Some(gg) && gg == g@,
                        forall|b: int| 0 <= b < k ==> !dup_pair(nvs[j as int], #[trigger] nvs[b]),
                    decreases j - k,
                {
                    proof {
                        assert(new_values[k as int]@ == nvs[k as int]);
                    }
                    match &new_values[k].id {
                        Some(h) => {
                            if g.same_as(h) {
                                proof {
                                    assert(dup_pair(nvs[j as int], nvs[k as int]));
                                }
                                return true;
                            }
                        },
                        None => {},
                    }
                    k = k + 1;
                }
            },
            None => {},
        }
        j = j + 1;
    }
    false
}

/// Builds the embedded values and identifiers of one batch insertion:
/// supplied identifiers are kept, missing ones become generated
/// identifiers longer than `pad`, so they are fresh against everything
/// `pad` bounds and pairwise distinct among themselves.
fn build_embedded_batch(
    new_values: &Vec<NewEmbedded>,
    pad: usize,
    created_by_id: &Option<Id>,
    now: u64,
) -> (r: (Vec<Embedded>, Vec<Id>))
    ensures
        ({
            let nvs = new_values.deep_view();
            let added = r.0.deep_view();
            let ids = r.1.deep_view();
            &&& added.len() == nvs.len()
            &&& ids.len() == nvs.len()
            &&& forall|j: int|
                0 <= j < nvs.len() ==> (#[trigger] added[j]) == embedded_doc(
                    nvs[j],
                    ids[j],
                    opt_id_view(*created_by_id),
                    now,
                )
            &&& forall|j: int| 0 <= j < nvs.len() ==> match (#[trigger] nvs[j]).id {
                Some(g) => ids[j] == g,
                None => ids[j].len() > pad && ids[j] == gen_id_rep(pad as nat, j as nat),
            }
        }),
{
    let ghost nvs = new_values.deep_view();
    let mut added: Vec<Embedded> = Vec::new();
    let mut out_ids: Vec<Id> = Vec::new();
    let mut j: usize = 0;
    while j < new_values.len()
        invariant
            0 <= j <= nvs.len(),
            nvs == new_values.deep_view(),
            nvs.len() == new_values@.len(),
            added@.len() == j,
            out_ids@.len() == j,
            forall|a: int|
                0 <= a < j ==> (#[trigger] added@[a])@ == embedded_doc(
                    nvs[a],
                    out_ids@[a]@,
                    opt_id_view(*created_by_id),
                    now,
                ),
            forall|a: int| 0 <= a < j ==> match (#[trigger] nvs[a]).id {
                Some(g) => out_ids@[a]@ == g,
                None => out_ids@[a]@.len() > pad && out_ids@[a]@ == gen_id_rep(pad as nat, a as nat),
            },
        decreases nvs.len() - j,
    {
        proof {
            assert(new_values[j as int]@ == nvs[j as int]);
        }
        let nv = &new_values[j];
        let id_j: Id = match &nv.id {
            Some(g) => g.clone(),
            None => gen_id(pad, j as u64),
        };
        let doc = Embedded {
            id: id_j.clone(),
            node: NodeDetails::stamp(now, clone_opt_id(created_by_id)),
            embedded_type: nv.embedded_type,
            value: nv.value,
        };
        proof {
            assert(doc@ =~= embedded_doc(
                nvs[j as int],
                id_j@,
                opt_id_view(*created_by_id),
                now,
            ));
        }
        added.push(doc);
        out_ids.push(id_j);
        j = j + 1;
    }
    proof {
        assert forall|a: int|
            0 <= a < nvs.len() implies (#[trigger] added.deep_view()[a]) == embedded_doc(
            nvs[a],
            out_ids.deep_view()[a],
            opt_id_view(*created_by_id),
            now,
        ) by {
            assert(added@[a]@ == embedded_doc(nvs[a], out_ids@[a]@, opt_id_view(*created_by_id), now));
        }
        assert forall|a: int| 0 <= a < nvs.len() implies match (#[trigger] nvs[a]).id {
            Some(g) => out_ids.deep_view()[a] == g,
            None => out_ids.deep_view()[a].len() > pad && out_ids.deep_view()[a] == gen_id_rep(
                pad as nat,
                a as nat,
            ),
        } by {
            assert(out_ids.deep_view()[a] == out_ids@[a]@);
        }
    }
    (added, out_ids)
}

/// Batch identifiers built against a sound `pad` are pairwise distinct
/// and name no existing embedded value.
proof fn lemma_batch_ids_fresh(
    vsv: Seq<EmbeddedV>,
    nvs: Seq<NewEmbeddedV>,
    idsv: Seq<Seq<u8>>,
    pad: nat,
)
    requires
        !add_conflict(vsv, nvs),
        idsv.len() == nvs.len(),
        forall|j: int| 0 <= j < vsv.len() ==> (#[trigger] vsv[j]).id.len() <= pad,
        forall|j: int| 0 <= j < nvs.len() ==> match (#[trigger] nvs[j]).id {
            Some(g) => g.len() <= pad && idsv[j] == g,
            None => idsv[j].len() > pad && idsv[j] == gen_id_rep(pad, j as nat),
        },
    ensures
        forall|j: int, k: int| 0 <= j < k < idsv.len() ==> idsv[j] != idsv[k],
        forall|j: int| 0 <= j < idsv.len() ==> !has_value(vsv, #[trigger] idsv[j]),
{
    assert forall|j: int, k: int| 0 <= j < k < idsv.len() implies idsv[j] != idsv[k] by {
        match (nvs[j].id, nvs[k].id) {
            (Some(g), Some(h)) => {
                assert(!dup_pair(nvs[k], nvs[j]));
            },
            (Some(g), None) => {
                assert(idsv[j].len() <= pad && idsv[k].len() > pad);
            },
            (None, Some(h)) => {
                assert(idsv[k].len() <= pad && idsv[j].len() > pad);
            },
            (None, None) => {
                if idsv[j] == idsv[k] {
                    lemma_gen_id_injective(pad, j as nat, k as nat);
                }
            },
        }
    }
    assert forall|j: int| 0 <= j < idsv.len() implies !has_value(vsv, #[trigger] idsv[j]) by {
        lemma_find_value_char(vsv, idsv[j]);
        match nvs[j].id {
            Some(g) => {
                assert(!dup_with_existing(vsv, nvs[j]));
            },
            None => {
                if has_value(vsv, idsv[j]) {
                    assert(vsv[find_value(vsv, idsv[j])].id == idsv[j]);
                    assert(vsv[find_value(vsv, idsv[j])].id.len() <= pad);
                }
            },
        }
    }
}

impl Store {
    /// Adds a batch of embedded values to the document `sample_id`
    /// names.
    ///
    /// Fails with `NotFound` exactly when no such document exists, and
    /// with `DuplicateKey` when a supplied identifier clashes with an
    /// existing embedded value or with another entry of the batch;
    /// either failure leaves the collection untouched, so the batch is
    /// appended all together or not at all. Entries without an
    /// identifier get freshly generated, pairwise distinct identifiers
    /// that name nothing in the document. Each appended value carries
    /// audit metadata stamped at `now` for `created_by_id`, and the
    /// parent's modification stamp is touched.
    #[verifier::rlimit(60)]
    pub fn insert_embedded(
        &mut self,
        sample_id: &Id,
        new_values: &Vec<NewEmbedded>,
        created_by_id: Option<Id>,
        now: u64,
    ) -> (r: Result<Vec<Id>, ServiceError>)
        requires
            wf_store(old(self)@),
        ensures
            wf_store(final(self)@),
            match r {
                Err(e) => {
                    &&& final(self)@ == old(self)@
                    &&& (e == ServiceError::NotFound || e == ServiceError::DuplicateKey)
                    &&& ((e == ServiceError::NotFound) <==> !has_sample(old(self)@, sample_id@))
                    &&& (e == ServiceError::DuplicateKey ==> add_conflict(
                        sample_at(old(self)@, sample_id@).values,
                        new_values.deep_view(),
                    ))
                },
                Ok(ids) => {
                    let S0 = old(self)@;
                    let target = sample_at(S0, sample_id@);
                    let nvs = new_values.deep_view();
                    let idsv = ids.deep_view();
                    &&& has_sample(S0, sample_id@)
                    &&& !add_conflict(target.values, nvs)
                    &&& idsv.len() == nvs.len()
                    &&& (forall|j: int| 0 <= j < nvs.len() ==> match (#[trigger] nvs[j]).id {
                        Some(g) => idsv[j] == g,
                        None => !has_value(target.values, idsv[j]),
                    })
                    &&& (forall|j: int, k: int| 0 <= j < k < idsv.len() ==> idsv[j] != idsv[k])
                    &&& final(self)@ == S0.update(
                        find_sample(S0, sample_id@),
                        parent_with_values(
                            target,
                            target.values + Seq::new(
                                nvs.len(),
                                |j: int|
                                    embedded_doc(nvs[j], idsv[j], opt_id_view(created_by_id), now),
                            ),
                            now,
                        ),
                    )
                },
            },
    {
        let ghost S0 = self@;
        let p = match self.position_of(sample_id) {
            None => {
                return Err(ServiceError::NotFound);
            },
            Some(p) => p,
        };
        let ghost target = S0[p as int];
        let ghost nvs = new_values.deep_view();
        let parent = &self.samples[p];
        proof {
            assert(parent@ == target);
        }
        if check_add_conflict(&parent.values, new_values) {
            return Err(ServiceError::DuplicateKey);
        }
        let pad = batch_pad(&parent.values, new_values);
        let batch = build_embedded_batch(new_values, pad, &created_by_id, now);
        let mut added = batch.0;
        let out_ids = batch.1;
        let ghost idsv = out_ids.deep_view();
        proof {
            lemma_batch_ids_fresh(target.values, nvs, idsv, pad as nat);
        }
        let mut vals = clone_values(&parent.values);
        let node2 = touch_node(&parent.node, None, now);
        let id2 = parent.id.clone();
        let name2 = parent.name.clone();
        let desc2 = clone_opt_string(&parent.description);
        let av = parent.available_date;
        let ex = parent.expiration_date;
        let ghost added_v = added.deep_view();
        vals.append(&mut added);
        let ghost appended = target.values + Seq::new(
            nvs.len(),
            |j: int| embedded_doc(nvs[j], idsv[j], opt_id_view(created_by_id), now),
        );
        proof {
            assert forall|k: int|
                0 <= k < vals.deep_view().len() implies vals.deep_view()[k] == appended[k] by {
                assert(vals.deep_view()[k] == vals@[k]@);
                if k < target.values.len() {
                    assert(vals.deep_view()[k] == target.values[k]);
                } else {
                    assert(vals@[k]@ == added_v[k - target.values.len()]);
                }
            }
            assert(vals.deep_view() =~= appended);
        }
        let new_parent = Sample {
            id: id2,
            node: node2,
            name: name2,
            description: desc2,
            available_date: av,
            expiration_date: ex,
            values: vals,
        };
        let ghost pv = parent_with_values(target, appended, now);
        proof {
            assert(new_parent@ =~= pv);
            // the appended values stay pairwise distinct and well formed
            assert(unique_value_ids(appended)) by {
                assert forall|a: int, b: int|
                    0 <= a < b < appended.len() implies (#[trigger] appended[a]).id != (
                #[trigger] appended[b]).id by {
                    let n = target.values.len() as int;
                    if b < n {
                        assert(unique_value_ids(target.values));
                    } else if a < n {
                        assert(appended[b].id == idsv[b - n]);
                        assert(!has_value(target.values, idsv[b - n]));
                        lemma_find_value_char(target.values, idsv[b - n]);
                        if appended[a].id == idsv[b - n] {
                            lemma_find_value_found(target.values, idsv[b - n], a);
                        }
                    } else {
                        assert(appended[a].id == idsv[a - n]);
                        assert(appended[b].id == idsv[b - n]);
                    }
                }
            }
            assert(wf_sample(pv)) by {
                assert(wf_sample(target));
                assert forall|a: int|
                    0 <= a < appended.len() implies wf_embedded(
                    #[trigger] appended[a]) by {
                    if a < target.values.len() {
                        assert(appended[a] == target.values[a]);
                    }
                }
            }
        }
        let ghost V0 = self.samples@;
        self.samples.set(p, new_parent);
        proof {
            assert forall|k: int|
                0 <= k < self@.len() implies self@[k] == S0.update(p as int, pv)[k] by {
                assert(self@[k] == self.samples@[k]@);
                if k != p {
                    assert(self.samples@[k] == V0[k]);
                    assert(V0[k]@ == S0[k]);
                }
            }
            assert(self@ =~= S0.update(p as int, pv));
            lemma_update_keeps_wf(S0, p as int, pv);
        }
        Ok(out_ids)
    }

    /// Applies a partial patch to one embedded value, addressed by
    /// (document identifier, embedded identifier).
    ///
    /// Fails with `NotFound` exactly when the document or the embedded
    /// value is absent, leaving the collection untouched. Otherwise only
    /// the fields present in the patch change on that one value, its
    /// audit metadata is touched at `now` for `updated_by_id`, the
    /// parent's modification stamp is touched, and the updated parent is
    /// returned.
    pub fn update_embedded(
        &mut self,
        sample_id: &Id,
        embedded_id: &Id,
        update: &UpdateEmbedded,
        updated_by_id: Option<Id>,
        now: u64,
    ) -> (r: Result<Sample, ServiceError>)
        requires
            wf_store(old(self)@),
        ensures
            wf_store(final(self)@),
            match r {
                Err(e) => {
                    &&& e == ServiceError::NotFound
                    &&& final(self)@ == old(self)@
                    &&& !(has_sample(old(self)@, sample_id@) && has_value(
                        sample_at(old(self)@, sample_id@).values,
                        embedded_id@,
                    ))
                },
                Ok(s) => {
                    let S0 = old(self)@;
                    let target = sample_at(S0, sample_id@);
                    let vi = find_value(target.values, embedded_id@);
                    &&& has_sample(S0, sample_id@)
                    &&& has_value(target.values, embedded_id@)
                    &&& s@ == parent_with_values(
                        target,
                        target.values.update(
                            vi,
                            patched_embedded(
                                target.values[vi],
                                *update,
                                opt_id_view(updated_by_id),
                                now,
                            ),
                        ),
                        now,
                    )
                    &&& final(self)@ == S0.update(find_sample(S0, sample_id@), s@)
                },
            },
    {
        let ghost S0 = self@;
        let p = match self.position_of(sample_id) {
            None => {
                return Err(ServiceError::NotFound);
            },
            Some(p) => p,
        };
        let ghost target = S0[p as int];
        let parent = &self.samples[p];
        proof {
            assert(parent@ == target);
        }
        let vi = match position_of_value(&parent.values, embedded_id) {
            None => {
                return Err(ServiceError::NotFound);
            },
            Some(vi) => vi,
        };
        let ov = &parent.values[vi];
        proof {
            assert(ov@ == target.values[vi as int]);
        }
        let ghost ev = patched_embedded(
            target.values[vi as int],
            *update,
            opt_id_view(updated_by_id),
            now,
        );
        let patched_value = Embedded {
            id: ov.id.clone(),
            node: touch_node(&ov.node, updated_by_id, now),
            embedded_type: match update.embedded_type {
                Some(t) => t,
                None => ov.embedded_type,
            },
            value: match update.value {
                Some(v) => Some(v),
                None => ov.value,
            },
        };
        proof {
            assert(patched_value@ =~= ev);
        }
        let mut vals = clone_values(&parent.values);
        vals.set(vi, patched_value);
        let ghost new_vals = target.values.update(vi as int, ev);
        proof {
            assert forall|k: int|
                0 <= k < vals.deep_view().len() implies vals.deep_view()[k] == new_vals[k] by {
                assert(vals.deep_view()[k] == vals@[k]@);
            }
            assert(vals.deep_view() =~= new_vals);
        }
        let new_parent = Sample {
            id: parent.id.clone(),
            node: touch_node(&parent.node, None, now),
            name: parent.name.clone(),
            description: clone_opt_string(&parent.description),
            available_date: parent.available_date,
            expiration_date: parent.expiration_date,
            values: vals,
        };
        let ghost pv = parent_with_values(target, new_vals, now);
        proof {
            assert(new_parent@ =~= pv);
            assert(wf_sample(pv)) by {
                assert(wf_sample(target));
                assert forall|a: int|
                    0 <= a < new_vals.len() implies wf_embedded(
                    #[trigger] new_vals[a]) by {
                    if a != vi {
                        assert(new_vals[a] == target.values[a]);
                    }
                }
                assert forall|a: int, b: int|
                    0 <= a < b < new_vals.len() implies (#[trigger] new_vals[a]).id != (
                #[trigger] new_vals[b]).id by {
                    assert(target.values[a].id != target.values[b].id);
                    assert(new_vals[a].id == target.values[a].id);
                    assert(new_vals[b].id == target.values[b].id);
                }
            }
        }
        let result = new_parent.clone();
        let ghost V0 = self.samples@;
        self.samples.set(p, new_parent);
        proof {
            assert forall|k: int|
                0 <= k < self@.len() implies self@[k] == S0.update(p as int, pv)[k] by {
                assert(self@[k] == self.samples@[k]@);
                if k != p {
                    assert(self.samples@[k] == V0[k]);
                    assert(V0[k]@ == S0[k]);
                }
            }
            assert(self@ =~= S0.update(p as int, pv));
            lemma_update_keeps_wf(S0, p as int, pv);
        }
        Ok(result)
    }

    /// Removes one embedded value, addressed by (document identifier,
    /// embedded identifier).
    ///
    /// Fails with `NotFound` exactly when the document is absent.
    /// Removing an absent embedded identifier from a present document is
    /// an unsuccessful — not erroring — outcome that changes nothing,
    /// mirroring the top-level delete.
    pub fn delete_embedded(&mut self, sample_id: &Id, embedded_id: &Id) -> (r: Result<
        DeleteResponse,
        ServiceError,
    >)
        requires
            wf_store(old(self)@),
        ensures
            wf_store(final(self)@),
            match r {
                Err(e) => {
                    &&& e == ServiceError::NotFound
                    &&& !has_sample(old(self)@, sample_id@)
                    &&& final(self)@ == old(self)@
                },
                Ok(d) => {
                    let S0 = old(self)@;
                    let target = sample_at(S0, sample_id@);
                    &&& has_sample(S0, sample_id@)
                    &&& d.id@ == embedded_id@
                    &&& d.success == has_value(target.values, embedded_id@)
                    &&& final(self)@ == if has_value(target.values, embedded_id@) {
                        S0.update(
                            find_sample(S0, sample_id@),
                            parent_minus_value(target, find_value(target.values, embedded_id@)),
                        )
                    } else {
                        S0
                    }
                },
            },
    {
        let ghost S0 = self@;
        let p = match self.position_of(sample_id) {
            None => {
                return Err(ServiceError::NotFound);
            },
            Some(p) => p,
        };
        let ghost target = S0[p as int];
        let parent = &self.samples[p];
        proof {
            assert(parent@ == target);
        }
        let vi = match position_of_value(&parent.values, embedded_id) {
            None => {
                return Ok(DeleteResponse { id: embedded_id.clone(), success: false });
            },
            Some(vi) => vi,
        };
        let mut vals = clone_values(&parent.values);
        let _ = vals.remove(vi);
        let ghost new_vals = target.values.remove(vi as int);
        proof {
            target.values.remove_ensures(vi as int);
            assert forall|k: int|
                0 <= k < vals.deep_view().len() implies vals.deep_view()[k] == new_vals[k] by {
                assert(vals.deep_view()[k] == vals@[k]@);
                if k < vi {
                    assert(new_vals[k] == target.values[k]);
                } else {
                    assert(new_vals[k] == target.values[k + 1]);
                }
            }
            assert(vals.deep_view() =~= new_vals);
        }
        let new_parent = Sample {
            id: parent.id.clone(),
            node: parent.node.clone(),
            name: parent.name.clone(),
            description: clone_opt_string(&parent.description),
            available_date: parent.available_date,
            expiration_date: parent.expiration_date,
            values: vals,
        };
        let ghost pv = parent_minus_value(target, vi as int);
        proof {
            target.values.remove_ensures(vi as int);
            assert(new_parent@ =~= pv);
            assert(wf_sample(pv)) by {
                assert(wf_sample(target));
                assert forall|a: int|
                    0 <= a < new_vals.len() implies wf_embedded(
                    #[trigger] new_vals[a]) by {
                    if a < vi {
                        assert(new_vals[a] == target.values[a]);
                    } else {
                        assert(new_vals[a] == target.values[a + 1]);
                    }
                }
                assert forall|a: int, b: int|
                    0 <= a < b < new_vals.len() implies (#[trigger] new_vals[a]).id != (
                #[trigger] new_vals[b]).id by {
                    if a < vi {
                        assert(new_vals[a] == target.values[a]);
                    } else {
                        assert(new_vals[a] == target.values[a + 1]);
                    }
                    if b < vi {
                        assert(new_vals[b] == target.values[b]);
                    } else {
                        assert(new_vals[b] == target.values[b + 1]);
                    }
                }
            }
        }
        let ghost V0 = self.samples@;
        self.samples.set(p, new_parent);
        proof {
            assert forall|k: int|
                0 <= k < self@.len() implies self@[k] == S0.update(p as int, pv)[k] by {
                assert(self@[k] == self.samples@[k]@);
                if k != p {
                    assert(self.samples@[k] == V0[k]);
                    assert(V0[k]@ == S0[k]);
                }
            }
            assert(self@ =~= S0.update(p as int, pv));
            lemma_update_keeps_wf(S0, p as int, pv);
        }
        Ok(DeleteResponse { id: embedded_id.clone(), success: true })
    }
}

/// The parent document with the embedded value at `vi` removed; the
/// audit metadata stays as it was, since the delete carries no clock.
pub open spec fn parent_minus_value(s: SampleV, vi: int) -> SampleV {
    SampleV {
        id: s.id,
        node: s.node,
        name: s.name,
        description: s.description,
        available_date: s.available_date,
        expiration_date: s.expiration_date,
        values: s.values.remove(vi),
    }
}

/// A freshly inserted document is found under its identifier.
pub proof fn lemma_insert_sorted_found(S: Seq<SampleV>, doc: SampleV)
    requires
        forall|j: int| 0 <= j < S.len() ==> (#[trigger] S[j]).id != doc.id,
    ensures
        has_sample(insert_sorted(S, doc), doc.id),
        sample_at(insert_sorted(S, doc), doc.id) == doc,
{
    lemma_insert_pos_char(S, doc);
    let p = insert_pos(S, doc);
    S.insert_ensures(p, doc);
    let T = S.insert(p, doc);
    assert forall|j: int| 0 <= j < p implies (#[trigger] T[j]).id != doc.id by {
        assert(T[j] == S[j]);
    }
    assert(T[p] == doc);
    lemma_find_sample_found(T, doc.id, p);
}

/// A document replaced in place is found under its identifier, at the
/// same index.
pub proof fn lemma_update_found(S: Seq<SampleV>, i: int, s2: SampleV)
    requires
        unique_sample_ids(S),
        0 <= i < S.len(),
        s2.id == S[i].id,
    ensures
        has_sample(S.update(i, s2), s2.id),
        find_sample(S.update(i, s2), s2.id) == i,
        sample_at(S.update(i, s2), s2.id) == s2,
{
    let T = S.update(i, s2);
    assert forall|j: int| 0 <= j < i implies (#[trigger] T[j]).id != s2.id by {
        assert(T[j] == S[j]);
        assert(S[j].id != S[i].id);
    }
    assert(T[i] == s2);
    lemma_find_sample_found(T, s2.id, i);
}

} // verus!
