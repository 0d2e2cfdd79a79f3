use vstd::prelude::*;

use crate::ids::Id;

verus! {

// ---------------------------------------------------------------------------
// Audit metadata
// ---------------------------------------------------------------------------

/// Mathematical view of [`NodeDetails`].
#[verifier::ext_equal]
pub struct NodeV {
    pub created: u64,
    pub modified: u64,
    pub created_by: Option<Seq<u8>>,
    pub updated_by: Option<Seq<u8>>,
}

/// Audit metadata attached to every top-level and embedded entity.
///
/// `date_created` is set once, at creation; `date_modified` is refreshed
/// on every mutation; the actor references are set from the
/// caller-supplied actor id and never inferred.
pub struct NodeDetails {
    pub date_created: u64,
    pub date_modified: u64,
    pub created_by_id: Option<Id>,
    pub updated_by_id: Option<Id>,
}

/// The view of an optional identifier.
pub open spec fn opt_id_view(o: Option<Id>) -> Option<Seq<u8>> {
    match o {
        Some(id) => Some(id@),
        None => None,
    }
}

impl View for NodeDetails {
    type V = NodeV;

    open spec fn view(&self) -> NodeV {
        NodeV {
            created: self.date_created,
            modified: self.date_modified,
            created_by: opt_id_view(self.created_by_id),
            updated_by: opt_id_view(self.updated_by_id),
        }
    }
}

impl DeepView for NodeDetails {
    type V = NodeV;

    open spec fn deep_view(&self) -> NodeV {
        self.view()
    }
}

/// Audit metadata is well formed when the modification stamp never
/// precedes the creation stamp.
pub open spec fn wf_node(n: NodeV) -> bool {
    n.modified >= n.created
}

/// Fresh audit metadata for an entity created at `now` by `actor`.
pub open spec fn stamped_node(now: u64, actor: Option<Seq<u8>>) -> NodeV {
    NodeV { created: now, modified: now, created_by: actor, updated_by: None }
}

/// Clones an optional identifier.
pub fn clone_opt_id(o: &Option<Id>) -> (r: Option<Id>)
    ensures
        opt_id_view(r) == opt_id_view(*o),
{
    match o {
        Some(id) => Some(id.clone()),
        None => None,
    }
}

impl Clone for NodeDetails {
    fn clone(&self) -> (r: Self)
        ensures
            r@ == self@,
    {
        let r = NodeDetails {
            date_created: self.date_created,
            date_modified: self.date_modified,
            created_by_id: clone_opt_id(&self.created_by_id),
            updated_by_id: clone_opt_id(&self.updated_by_id),
        };
        proof {
            assert(r@ =~= self@);
        }
        r
    }
}

impl NodeDetails {
    /// Fresh audit metadata stamped at `now` on behalf of `actor`.
    pub fn stamp(now: u64, actor: Option<Id>) -> (r: NodeDetails)
        ensures
            r@ == stamped_node(now, opt_id_view(actor)),
    {
        let r = NodeDetails {
            date_created: now,
            date_modified: now,
            created_by_id: actor,
            updated_by_id: None,
        };
        proof {
            assert(r@ =~= stamped_node(now, opt_id_view(actor)));
        }
        r
    }
}

// ---------------------------------------------------------------------------
// Embedded values
// ---------------------------------------------------------------------------

/// The closed enumeration of embedded value kinds.
#[derive(Clone, Copy, Debug, PartialEq, Eq, Structural)]
pub enum EmbeddedType {
    One,
    Another,
}

/// Mathematical view of [`Embedded`].
#[verifier::ext_equal]
pub struct EmbeddedV {
    pub id: Seq<u8>,
    pub node: NodeV,
    pub embedded_type: EmbeddedType,
    pub value: Option<i64>,
}

/// A sub-entity owned exclusively by its parent sample: created by the
/// batch-insert mutation, mutated by partial patch, destroyed by an
/// explicit delete by id.
pub struct Embedded {
    pub id: Id,
    pub node: NodeDetails,
    pub embedded_type: EmbeddedType,
    pub value: Option<i64>,
}

impl View for Embedded {
    type V = EmbeddedV;

    open spec fn view(&self) -> EmbeddedV {
        EmbeddedV {
            id: self.id@,
            node: self.node@,
            embedded_type: self.embedded_type,
            value: self.value,
        }
    }
}

impl DeepView for Embedded {
    type V = EmbeddedV;

    open spec fn deep_view(&self) -> EmbeddedV {
        self.view()
    }
}

/// An embedded value is well formed when its audit metadata is.
pub open spec fn wf_embedded(e: EmbeddedV) -> bool {
    wf_node(e.node)
}

impl Clone for Embedded {
    fn clone(&self) -> (r: Self)
        ensures
            r@ == self@,
    {
        let r = Embedded {
            id: self.id.clone(),
            node: self.node.clone(),
            embedded_type: self.embedded_type,
            value: self.value,
        };
        proof {
            assert(r@ =~= self@);
        }
        r
    }
}

impl Embedded {
    /// The identifier of the embedded value.
    pub fn id(&self) -> (r: &Id)
        ensures
            r@ == self@.id,
    {
        &self.id
    }

    /// When the embedded value was created.
    pub fn date_created(&self) -> (r: u64)
        ensures
            r == self@.node.created,
    {
        self.node.date_created
    }

    /// When the embedded value was last modified.
    pub fn date_modified(&self) -> (r: u64)
        ensures
            r == self@.node.modified,
    {
        self.node.date_modified
    }

    /// The kind of the embedded value.
    pub fn embedded_type(&self) -> (r: EmbeddedType)
        ensures
            r == self@.embedded_type,
    {
        self.embedded_type
    }

    /// The numeric value, with absence read as zero.
    pub fn value(&self) -> (r: i64)
        ensures
            r == match self@.value {
                Some(v) => v,
                None => 0,
            },
    {
        match self.value {
            Some(v) => v,
            None => 0,
        }
    }
}

/// Clones a vector of embedded values.
pub fn clone_values(v: &Vec<Embedded>) -> (r: Vec<Embedded>)
    ensures
        r.deep_view() == v.deep_view(),
{
    let mut r: Vec<Embedded> = Vec::new();
    let mut i: usize = 0;
    while i < v.len()
        invariant
            0 <= i <= v@.len(),
            r@.len() == i,
            forall|k: int| 0 <= k < i ==> (#[trigger] r@[k])@ == v@[k]@,
        decreases v@.len() - i,
    {
        r.push(v[i].clone());
        i = i + 1;
    }
    proof {
        assert forall|k: int| 0 <= k < v@.len() implies r.deep_view()[k] == v.deep_view()[k] by {
            assert(r@[k]@ == v@[k]@);
        }
        assert(r.deep_view() =~= v.deep_view());
    }
    r
}

// ---------------------------------------------------------------------------
// Samples
// ---------------------------------------------------------------------------

/// Mathematical view of [`Sample`].
#[verifier::ext_equal]
pub struct SampleV {
    pub id: Seq<u8>,
    pub node: NodeV,
    pub name: Seq<char>,
    pub description: Option<Seq<char>>,
    pub available_date: Option<i64>,
    pub expiration_date: Option<i64>,
    pub values: Seq<EmbeddedV>,
}

/// A top-level document: identifier, audit metadata, a required name, an
/// optional description, an optional availability window, and an ordered
/// collection of embedded values.
pub struct Sample {
    pub id: Id,
    pub node: NodeDetails,
    pub name: String,
    pub description: Option<String>,
    pub available_date: Option<i64>,
    pub expiration_date: Option<i64>,
    pub values: Vec<Embedded>,
}

impl View for Sample {
    type V = SampleV;

    open spec fn view(&self) -> SampleV {
        SampleV {
            id: self.id@,
            node: self.node@,
            name: self.name@,
            description: self.description.deep_view(),
            available_date: self.available_date,
            expiration_date: self.expiration_date,
            values: self.values.deep_view(),
        }
    }
}

impl DeepView for Sample {
    type V = SampleV;

    open spec fn deep_view(&self) -> SampleV {
        self.view()
    }
}

/// The embedded values of a sample carry pairwise distinct identifiers.
pub open spec fn unique_value_ids(values: Seq<EmbeddedV>) -> bool {
    forall|i: int, j: int|
        0 <= i < j < values.len() ==> (#[trigger] values[i]).id != (#[trigger] values[j]).id
}

/// A sample is well formed when its audit metadata is, each embedded
/// value is, and the embedded identifiers are pairwise distinct.
pub open spec fn wf_sample(s: SampleV) -> bool {
    &&& wf_node(s.node)
    &&& forall|i: int| 0 <= i < s.values.len() ==> wf_embedded(#[trigger] s.values[i])
    &&& unique_value_ids(s.values)
}

/// Clones an optional text.
pub fn clone_opt_string(o: &Option<String>) -> (r: Option<String>)
    ensures
        r.deep_view() == o.deep_view(),
{
    match o {
        Some(s) => Some(s.clone()),
        None => None,
    }
}

impl Clone for Sample {
    fn clone(&self) -> (r: Self)
        ensures
            r@ == self@,
    {
        let r = Sample {
            id: self.id.clone(),
            node: self.node.clone(),
            name: self.name.clone(),
            description: clone_opt_string(&self.description),
            available_date: self.available_date,
            expiration_date: self.expiration_date,
            values: clone_values(&self.values),
        };
        proof {
            assert(r@ =~= self@);
        }
        r
    }
}

/// One step of the running minimum over embedded values: a missing value
/// reads as zero, a zero accumulator adopts the next value, and a
/// smaller nonzero value replaces the accumulator.
pub open spec fn min_fold_step(acc: i64, value: Option<i64>) -> i64 {
    let x = match value {
        Some(v) => v,
        None => 0,
    };
    if acc == 0 {
        x
    } else if x < acc && x != 0 {
        x
    } else {
        acc
    }
}

/// The running minimum over a sample's embedded values, folded left to
/// right from a zero accumulator.
pub open spec fn min_value_spec(values: Seq<EmbeddedV>) -> i64
    decreases values.len(),
{
    if values.len() == 0 {
        0
    } else {
        min_fold_step(min_value_spec(values.drop_last()), values.last().value)
    }
}

impl Sample {
    /// The identifier of the sample.
    pub fn id(&self) -> (r: &Id)
        ensures
            r@ == self@.id,
    {
        &self.id
    }

    /// When the sample was created.
    pub fn date_created(&self) -> (r: u64)
        ensures
            r == self@.node.created,
    {
        self.node.date_created
    }

    /// When the sample was last modified.
    pub fn date_modified(&self) -> (r: u64)
        ensures
            r == self@.node.modified,
    {
        self.node.date_modified
    }

    /// The actor that created the sample, if recorded.
    pub fn created_by(&self) -> (r: Option<&Id>)
        ensures
            match r {
                Some(id) => self@.node.created_by == Some(id@),
                None => self@.node.created_by is None,
            },
    {
        match &self.node.created_by_id {
            Some(id) => Some(id),
            None => None,
        }
    }

    /// The actor that last updated the sample, if recorded.
    pub fn updated_by(&self) -> (r: Option<&Id>)
        ensures
            match r {
                Some(id) => self@.node.updated_by == Some(id@),
                None => self@.node.updated_by is None,
            },
    {
        match &self.node.updated_by_id {
            Some(id) => Some(id),
            None => None,
        }
    }

    /// The required display name.
    pub fn name(&self) -> (r: &String)
        ensures
            r@ == self@.name,
    {
        &self.name
    }

    /// The optional description.
    pub fn description(&self) -> (r: &Option<String>)
        ensures
            r.deep_view() == self@.description,
    {
        &self.description
    }

    /// The availability date shown to clients: the stored date when
    /// present, and otherwise the creation stamp (when it fits the
    /// signed range of a date).
    pub fn available_date(&self) -> (r: Option<i64>)
        ensures
            r == available_display(self@),
    {
        match self.available_date {
            Some(a) => Some(a),
            None => {
                if self.node.date_created <= i64::MAX as u64 {
                    Some(self.node.date_created as i64)
                } else {
                    None
                }
            },
        }
    }

    /// The expiration date; absence means the sample never expires.
    pub fn expiration_date(&self) -> (r: Option<i64>)
        ensures
            r == self@.expiration_date,
    {
        self.expiration_date
    }

    /// The embedded values, in display order.
    pub fn values(&self) -> (r: &Vec<Embedded>)
        ensures
            r.deep_view() == self@.values,
    {
        &self.values
    }

    /// The running minimum of the embedded values: zero when there are
    /// none, otherwise the smallest nonzero value (with missing values
    /// read as zero), as `min_value_spec` folds it.
    pub fn min_value(&self) -> (r: i64)
        ensures
            r == min_value_spec(self@.values),
    {
        let mut acc: i64 = 0;
        let mut i: usize = 0;
        while i < self.values.len()
            invariant
                0 <= i <= self.values.deep_view().len(),
                self.values.deep_view().len() == self.values@.len(),
                acc == min_value_spec(self.values.deep_view().take(i as int)),
            decreases self.values@.len() - i,
        {
            let x: i64 = match self.values[i].value {
                Some(v) => v,
                None => 0,
            };
            proof {
                let vs = self.values.deep_view();
                assert(vs.take(i + 1).drop_last() =~= vs.take(i as int));
                assert(vs.take(i + 1).last() == vs[i as int]);
            }
            if acc == 0 {
                acc = x;
            } else if x < acc && x != 0 {
                acc = x;
            }
            i = i + 1;
        }
        proof {
            assert(self.values.deep_view().take(self.values@.len() as int) =~= self.values.deep_view());
        }
        acc
    }
}

/// The availability date a sample displays: the stored date, defaulting
/// to the creation stamp when absent.
pub open spec fn available_display(s: SampleV) -> Option<i64> {
    if s.available_date is Some {
        s.available_date
    } else if s.node.created <= i64::MAX {
        Some(s.node.created as i64)
    } else {
        None
    }
}

// ---------------------------------------------------------------------------
// Inputs
// ---------------------------------------------------------------------------

/// Mathematical view of [`NewSample`].
#[verifier::ext_equal]
pub struct NewSampleV {
    pub id: Option<Seq<u8>>,
    pub name: Seq<char>,
    pub description: Option<Seq<char>>,
    pub available_date: Option<i32>,
    pub expiration_date: Option<i32>,
}

/// The fields of a sample to create; a missing identifier asks the store
/// to generate a fresh one.
pub struct NewSample {
    pub id: Option<Id>,
    pub name: String,
    pub description: Option<String>,
    pub available_date: Option<i32>,
    pub expiration_date: Option<i32>,
}

impl View for NewSample {
    type V = NewSampleV;

    open spec fn view(&self) -> NewSampleV {
        NewSampleV {
            id: opt_id_view(self.id),
            name: self.name@,
            description: self.description.deep_view(),
            available_date: self.available_date,
            expiration_date: self.expiration_date,
        }
    }
}

/// Mathematical view of [`UpdateSample`].
#[verifier::ext_equal]
pub struct UpdateSampleV {
    pub name: Option<Seq<char>>,
    pub description: Option<Seq<char>>,
    pub available_date: Option<i32>,
    pub expiration_date: Option<i32>,
}

/// A partial patch of a sample: only the present fields are modified.
pub struct UpdateSample {
    /// Optional updated name
    pub name: Option<String>,
    /// Optional updated description
    pub description: Option<String>,
    /// Optional updated available date for the content, sent as unix time stamp
    pub available_date: Option<i32>,
    /// Optional updated expiration date for the content, sent as unix time stamp
    pub expiration_date: Option<i32>,
}

impl View for UpdateSample {
    type V = UpdateSampleV;

    open spec fn view(&self) -> UpdateSampleV {
        UpdateSampleV {
            name: self.name.deep_view(),
            description: self.description.deep_view(),
            available_date: self.available_date,
            expiration_date: self.expiration_date,
        }
    }
}

/// Mathematical view of [`NewEmbedded`].
#[verifier::ext_equal]
pub struct NewEmbeddedV {
    pub id: Option<Seq<u8>>,
    pub embedded_type: EmbeddedType,
    pub value: Option<i64>,
}

/// The fields of an embedded value to add; a missing identifier asks the
/// store to generate a fresh one.
pub struct NewEmbedded {
    pub id: Option<Id>,
    pub embedded_type: EmbeddedType,
    pub value: Option<i64>,
}

impl View for NewEmbedded {
    type V = NewEmbeddedV;

    open spec fn view(&self) -> NewEmbeddedV {
        NewEmbeddedV {
            id: opt_id_view(self.id),
            embedded_type: self.embedded_type,
            value: self.value,
        }
    }
}

impl DeepView for NewEmbedded {
    type V = NewEmbeddedV;

    open spec fn deep_view(&self) -> NewEmbeddedV {
        self.view()
    }
}

/// A partial patch of one embedded value.
pub struct UpdateEmbedded {
    /// Optional updated embedded type
    pub embedded_type: Option<EmbeddedType>,
    /// Optional updated value
    pub value: Option<i64>,
}

// ---------------------------------------------------------------------------
// Statuses and delete outcomes
// ---------------------------------------------------------------------------

/// The time-derived classification of a sample, computed at query time
/// from the caller-supplied clock; `All` asks for no filtering.
#[derive(Clone, Copy, Debug, PartialEq, Eq, Structural)]
pub enum Status {
    All,
    Available,
    Active,
    Expired,
    Pending,
}

/// The outcome of a delete: the identifier it addressed and whether a
/// document (or embedded value) was actually removed.
pub struct DeleteResponse {
    pub id: Id,
    pub success: bool,
}

} // verus!
