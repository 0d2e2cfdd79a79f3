use vstd::prelude::*;
use vstd::string::StringExecFns;

use crate::auth::{authorize, authorized, claims_accepted, opt_claims_view, Claims};
use crate::cache::{
    clone_opt_arg_bytes, has_live, store_spec, value_at, EntryV, KeyV, QueryCache, QueryKey,
};
use crate::errors::ServiceError;
use crate::filters::{build_status_filter, clone_strings, Filter, FilterV};
use crate::ids::Id;
use crate::models::{
    opt_id_view, stamped_node, unique_value_ids, wf_sample, DeleteResponse, EmbeddedType,
    NewEmbedded, NewSample, Sample, SampleV, Status, UpdateEmbedded, UpdateSample, UpdateSampleV,
};
use crate::pagination::{
    connection_spec, cursor_rep, decode_cursor, opt_cursor_view, opt_limit_view, ConnectionV,
    Cursor, CursorV, SampleConnection,
};
use crate::store::{
    add_conflict, embedded_doc, filter_seq, find_sample, find_value, has_sample, has_value,
    insert_sorted, lemma_find_sample_char, lemma_insert_sorted_found, lemma_update_found,
    new_sample_doc, parent_minus_value, parent_with_values, patched_embedded, patched_sample,
    sample_at, touched_node, wf_store, Store,
};

verus! {

/// Relies on `std::time::SystemTime::now`: the machine's wall clock,
/// read as whole seconds since the Unix epoch (zero should the clock
/// read before it). Nothing can be promised of a clock reading.
#[verifier::external_body]
fn clock_seconds() -> u64 {
    match std::time::SystemTime::now().duration_since(std::time::SystemTime::UNIX_EPOCH) {
        Ok(d) => d.as_secs(),
        Err(_) => 0,
    }
}

/// Seconds since the Unix epoch, read from the wall clock.
///
/// The resolvers never read the clock themselves: each takes the time
/// as an argument and is verified for every value of it, so tests and
/// the laws control time explicitly. Callers outside pass this reading
/// in.
pub fn now() -> u64 {
    clock_seconds()
}

// ---------------------------------------------------------------------------
// Configuration and context
// ---------------------------------------------------------------------------

/// Mathematical view of [`Config`].
#[verifier::ext_equal]
pub struct ConfigV {
    pub cache_capacity: usize,
    pub cache_ttl: u64,
    pub disable_auth: bool,
    pub required_domain: Seq<char>,
}

/// The configuration the layer consumes, read once at startup and
/// immutable thereafter: the cache bounds, the authorization bypass
/// switch, and the claim domain mutations require.
pub struct Config {
    pub cache_capacity: usize,
    pub cache_ttl: u64,
    pub disable_auth: bool,
    pub required_domain: String,
}

impl View for Config {
    type V = ConfigV;

    open spec fn view(&self) -> ConfigV {
        ConfigV {
            cache_capacity: self.cache_capacity,
            cache_ttl: self.cache_ttl,
            disable_auth: self.disable_auth,
            required_domain: self.required_domain@,
        }
    }
}

/// Everything a resolver works on: the document store, the claims of
/// the request, the configuration, and one cache per cached query
/// shape — explicitly constructed objects, no hidden statics.
pub struct Context {
    pub store: Store,
    pub claims: Option<Claims>,
    pub config: Config,
    pub all_samples_cache: QueryCache,
    pub search_cache: QueryCache,
    pub by_status_cache: QueryCache,
    pub by_names_cache: QueryCache,
}

impl Context {
    /// A context over an empty store, with empty caches bounded by the
    /// configuration.
    pub fn new(config: Config, claims: Option<Claims>) -> (r: Context)
        ensures
            r.store@ =~= Seq::<SampleV>::empty(),
            opt_claims_view(r.claims) == opt_claims_view(claims),
            r.config@ == config@,
            r.all_samples_cache@.entries =~= Seq::<EntryV>::empty(),
            r.search_cache@.entries =~= Seq::<EntryV>::empty(),
            r.by_status_cache@.entries =~= Seq::<EntryV>::empty(),
            r.by_names_cache@.entries =~= Seq::<EntryV>::empty(),
            r.all_samples_cache@.capacity == config.cache_capacity,
            r.all_samples_cache@.ttl == config.cache_ttl,
            r.search_cache@.capacity == config.cache_capacity,
            r.search_cache@.ttl == config.cache_ttl,
            r.by_status_cache@.capacity == config.cache_capacity,
            r.by_status_cache@.ttl == config.cache_ttl,
            r.by_names_cache@.capacity == config.cache_capacity,
            r.by_names_cache@.ttl == config.cache_ttl,
    {
        let capacity = config.cache_capacity;
        let ttl = config.cache_ttl;
        Context {
            store: Store::new(),
            claims,
            config,
            all_samples_cache: QueryCache::new(capacity, ttl),
            search_cache: QueryCache::new(capacity, ttl),
            by_status_cache: QueryCache::new(capacity, ttl),
            by_names_cache: QueryCache::new(capacity, ttl),
        }
    }
}

/// Whether the context's claims pass the required domain (the bypass
/// switch aside).
pub fn has_auth(ctx: &Context) -> (r: bool)
    ensures
        r == claims_accepted(
            opt_claims_view(ctx.claims),
            ctx.config@.required_domain,
        ),
{
    authorize(&ctx.claims, &ctx.config.required_domain, false)
}

/// Whether a mutation on this context may run: the bypass switch, or
/// accepted claims.
pub open spec fn mutation_allowed(ctx: Context) -> bool {
    authorized(opt_claims_view(ctx.claims), ctx.config@.required_domain, ctx.config@.disable_auth)
}

/// The store, claims and configuration are untouched.
pub open spec fn same_env(a: Context, b: Context) -> bool {
    &&& a.store@ == b.store@
    &&& opt_claims_view(a.claims) == opt_claims_view(b.claims)
    &&& a.config@ == b.config@
}

/// All four caches are untouched.
pub open spec fn same_caches(a: Context, b: Context) -> bool {
    &&& a.all_samples_cache@ == b.all_samples_cache@
    &&& a.search_cache@ == b.search_cache@
    &&& a.by_status_cache@ == b.by_status_cache@
    &&& a.by_names_cache@ == b.by_names_cache@
}

// ---------------------------------------------------------------------------
// Wire arguments
// ---------------------------------------------------------------------------

/// The cursor an opaque byte string denotes, if it denotes one.
pub open spec fn decoded_cursor(b: Seq<u8>) -> Option<CursorV> {
    if exists|cv: CursorV| cursor_rep(cv) == b {
        Some(choose|cv: CursorV| cursor_rep(cv) == b)
    } else {
        None
    }
}

/// The cursor bound an optional opaque argument contributes; a byte
/// string that decodes to nothing bounds nothing.
pub open spec fn arg_cursor(b: Option<Seq<u8>>) -> Option<CursorV> {
    match b {
        None => None,
        Some(s) => decoded_cursor(s),
    }
}

/// The offset an optional count argument contributes: absent or
/// negative counts as zero.
pub open spec fn count_arg(x: Option<i32>) -> int {
    match x {
        Some(v) => if v >= 0 {
            v as int
        } else {
            0
        },
        None => 0,
    }
}

/// The page size an optional count argument contributes: absent means
/// unlimited, negative counts as zero.
pub open spec fn limit_arg(x: Option<i32>) -> Option<int> {
    match x {
        Some(v) => Some(
            if v >= 0 {
                v as int
            } else {
                0
            },
        ),
        None => None,
    }
}

/// Decodes an optional opaque cursor argument.
fn decode_opt_cursor(b: &Option<Vec<u8>>) -> (r: Option<Cursor>)
    ensures
        opt_cursor_view(r) == arg_cursor(b.deep_view()),
{
    match b {
        None => None,
        Some(bytes) => {
            let d = decode_cursor(bytes.as_slice());
            proof {
                assert(bytes.deep_view() =~= bytes@);
                match &d {
                    Some(c) => {
                        assert(exists|cv: CursorV| cursor_rep(cv) == bytes@);
                        let cv0 = choose|cv: CursorV| cursor_rep(cv) == bytes@;
                        assert(bytes@ == cursor_rep(cv0));
                        assert(c@ == cv0);
                    },
                    None => {
                        if exists|cv: CursorV| cursor_rep(cv) == bytes@ {
                            let cv0 = choose|cv: CursorV| cursor_rep(cv) == bytes@;
                            assert(bytes@ == cursor_rep(cv0));
                        }
                    },
                }
            }
            d
        },
    }
}

/// Clamps an optional count argument into an offset.
fn clamp_count(x: Option<i32>) -> (r: usize)
    ensures
        r as int == count_arg(x),
{
    match x {
        Some(v) => if v >= 0 {
            v as usize
        } else {
            0
        },
        None => 0,
    }
}

/// Clamps an optional count argument into a page size.
fn clamp_limit(x: Option<i32>) -> (r: Option<usize>)
    ensures
        opt_limit_view(r) == limit_arg(x),
{
    match x {
        Some(v) => Some(
            if v >= 0 {
                v as usize
            } else {
                0
            },
        ),
        None => None,
    }
}

// ---------------------------------------------------------------------------
// Queries
// ---------------------------------------------------------------------------

/// The connection the unfiltered listing computes from the store.
pub open spec fn all_samples_conn(
    S: Seq<SampleV>,
    limit: Option<i32>,
    after: Option<Seq<u8>>,
    before: Option<Seq<u8>>,
    skip: Option<i32>,
) -> ConnectionV {
    connection_spec(
        filter_seq(S, FilterV::All),
        arg_cursor(after),
        arg_cursor(before),
        count_arg(skip),
        limit_arg(limit),
    )
}

/// The read operations of the layer.
pub struct Query;

impl Query {
    /// Lists all samples, paged; cached per argument tuple.
    ///
    /// A live cache entry for an equal argument tuple is served as it
    /// was stored — the store is not consulted. Otherwise the page is
    /// computed from the store's current state and cached at `now`.
    pub fn all_samples(
        ctx: &mut Context,
        limit: Option<i32>,
        after: Option<Vec<u8>>,
        before: Option<Vec<u8>>,
        skip: Option<i32>,
        now: u64,
    ) -> (r: Result<SampleConnection, ServiceError>)
        ensures
            same_env(*old(ctx), *final(ctx)),
            final(ctx).search_cache@ == old(ctx).search_cache@,
            final(ctx).by_status_cache@ == old(ctx).by_status_cache@,
            final(ctx).by_names_cache@ == old(ctx).by_names_cache@,
            ({
                let key = KeyV::AllSamples {
                    limit,
                    after: after.deep_view(),
                    before: before.deep_view(),
                    skip,
                };
                let c0 = old(ctx).all_samples_cache@;
                if has_live(c0, key, now) {
                    r matches Ok(v) && v@ == value_at(c0, key) && final(ctx).all_samples_cache@
                        == c0
                } else {
                    let conn = all_samples_conn(
                        old(ctx).store@,
                        limit,
                        after.deep_view(),
                        before.deep_view(),
                        skip,
                    );
                    r matches Ok(v) && v@ == conn && final(ctx).all_samples_cache@ == store_spec(
                        c0,
                        key,
                        conn,
                        now,
                    )
                }
            }),
    {
        let key = QueryKey::AllSamples {
            limit,
            after: clone_opt_arg_bytes(&after),
            before: clone_opt_arg_bytes(&before),
            skip,
        };
        proof {
            assert(key@ =~= KeyV::AllSamples {
                limit,
                after: after.deep_view(),
                before: before.deep_view(),
                skip,
            });
        }
        let cached: Option<SampleConnection> = match ctx.all_samples_cache.lookup(&key, now) {
            Some(v) => Some(v.clone()),
            None => None,
        };
        match cached {
            Some(v) => Ok(v),
            None => {
                let after_c = decode_opt_cursor(&after);
                let before_c = decode_opt_cursor(&before);
                let skip_n = clamp_count(skip);
                let limit_n = clamp_limit(limit);
                let conn = ctx.store.find(&Filter::All, &after_c, &before_c, skip_n, &limit_n);
                ctx.all_samples_cache.store(key, conn.clone(), now);
                Ok(conn)
            },
        }
    }

    /// Looks one sample up by identifier.
    ///
    /// Identifier-keyed reads are never cached: the result always
    /// reflects the store's current state. Fails with `NotFound`
    /// exactly when the identifier names nothing.
    pub fn sample_by_id(ctx: &Context, id: &Id) -> (r: Result<Sample, ServiceError>)
        ensures
            match r {
                Ok(s) => has_sample(ctx.store@, id@) && s@ == sample_at(ctx.store@, id@),
                Err(e) => e == ServiceError::NotFound && !has_sample(ctx.store@, id@),
            },
    {
        match ctx.store.find_one_by_id(id) {
            Some(item) => Ok(item),
            None => Err(ServiceError::NotFound),
        }
    }
}

/// The filter a status query builds: a present status selects its
/// window at `now`, an absent one selects everything.
pub open spec fn status_filter(status: Option<Status>, now: u64) -> FilterV {
    match status {
        Some(st) => FilterV::ByStatus { status: st, now },
        None => FilterV::All,
    }
}

/// The connection the status query computes from the store.
pub open spec fn samples_by_status_conn(
    S: Seq<SampleV>,
    status: Option<Status>,
    limit: Option<i32>,
    after: Option<Seq<u8>>,
    before: Option<Seq<u8>>,
    skip: Option<i32>,
    now: u64,
) -> ConnectionV {
    connection_spec(
        filter_seq(S, status_filter(status, now)),
        arg_cursor(after),
        arg_cursor(before),
        count_arg(skip),
        limit_arg(limit),
    )
}

/// The connection the search query computes from the store.
pub open spec fn search_samples_conn(
    S: Seq<SampleV>,
    term: Seq<char>,
    fields: Seq<Seq<char>>,
    limit: Option<i32>,
    after: Option<Seq<u8>>,
    before: Option<Seq<u8>>,
    skip: Option<i32>,
) -> ConnectionV {
    connection_spec(
        filter_seq(S, FilterV::Search { term, fields }),
        arg_cursor(after),
        arg_cursor(before),
        count_arg(skip),
        limit_arg(limit),
    )
}

/// The status an optional status argument means: absence selects
/// everything, like `All`.
pub open spec fn status_or_all(status: Option<Status>) -> Status {
    match status {
        Some(st) => st,
        None => Status::All,
    }
}

/// The connection the by-names query computes from the store: every
/// sample whose name is listed and whose status window matches, without
/// pagination bounds.
pub open spec fn sample_by_names_conn(
    S: Seq<SampleV>,
    names: Seq<Seq<char>>,
    status: Option<Status>,
    now: u64,
) -> ConnectionV {
    connection_spec(
        filter_seq(S, FilterV::ByNames { names, status: status_or_all(status), now }),
        None,
        None,
        0,
        None,
    )
}

impl Query {
    /// Lists the samples a status selects at `now`, paged; cached per
    /// argument tuple.
    ///
    /// A live cache entry for an equal argument tuple is served as it
    /// was stored. The clock enters the filter when it is built, so a
    /// hit may reflect a window up to TTL seconds old.
    pub fn samples_by_status(
        ctx: &mut Context,
        status: Option<Status>,
        limit: Option<i32>,
        after: Option<Vec<u8>>,
        before: Option<Vec<u8>>,
        skip: Option<i32>,
        now: u64,
    ) -> (r: Result<SampleConnection, ServiceError>)
        ensures
            same_env(*old(ctx), *final(ctx)),
            final(ctx).all_samples_cache@ == old(ctx).all_samples_cache@,
            final(ctx).search_cache@ == old(ctx).search_cache@,
            final(ctx).by_names_cache@ == old(ctx).by_names_cache@,
            ({
                let key = KeyV::SamplesByStatus {
                    status,
                    limit,
                    after: after.deep_view(),
                    before: before.deep_view(),
                    skip,
                };
                let c0 = old(ctx).by_status_cache@;
                if has_live(c0, key, now) {
                    r matches Ok(v) && v@ == value_at(c0, key) && final(ctx).by_status_cache@
                        == c0
                } else {
                    let conn = samples_by_status_conn(
                        old(ctx).store@,
                        status,
                        limit,
                        after.deep_view(),
                        before.deep_view(),
                        skip,
                        now,
                    );
                    r matches Ok(v) && v@ == conn && final(ctx).by_status_cache@ == store_spec(
                        c0,
                        key,
                        conn,
                        now,
                    )
                }
            }),
    {
        let key = QueryKey::SamplesByStatus {
            status,
            limit,
            after: clone_opt_arg_bytes(&after),
            before: clone_opt_arg_bytes(&before),
            skip,
        };
        proof {
            assert(key@ =~= KeyV::SamplesByStatus {
                status,
                limit,
                after: after.deep_view(),
                before: before.deep_view(),
                skip,
            });
        }
        let cached: Option<SampleConnection> = match ctx.by_status_cache.lookup(&key, now) {
            Some(v) => Some(v.clone()),
            None => None,
        };
        match cached {
            Some(v) => Ok(v),
            None => {
                let filter = build_status_filter(status, now);
                let after_c = decode_opt_cursor(&after);
                let before_c = decode_opt_cursor(&before);
                let skip_n = clamp_count(skip);
                let limit_n = clamp_limit(limit);
                let conn = ctx.store.find(&filter, &after_c, &before_c, skip_n, &limit_n);
                ctx.by_status_cache.store(key, conn.clone(), now);
                Ok(conn)
            },
        }
    }

    /// Searches the named fields of every sample for a term, paged;
    /// cached per argument tuple.
    pub fn search_samples(
        ctx: &mut Context,
        search_term: String,
        fields: Vec<String>,
        limit: Option<i32>,
        after: Option<Vec<u8>>,
        before: Option<Vec<u8>>,
        skip: Option<i32>,
        now: u64,
    ) -> (r: Result<SampleConnection, ServiceError>)
        ensures
            same_env(*old(ctx), *final(ctx)),
            final(ctx).all_samples_cache@ == old(ctx).all_samples_cache@,
            final(ctx).by_status_cache@ == old(ctx).by_status_cache@,
            final(ctx).by_names_cache@ == old(ctx).by_names_cache@,
            ({
                let key = KeyV::SearchSamples {
                    term: search_term@,
                    fields: fields.deep_view(),
                    limit,
                    after: after.deep_view(),
                    before: before.deep_view(),
                    skip,
                };
                let c0 = old(ctx).search_cache@;
                if has_live(c0, key, now) {
                    r matches Ok(v) && v@ == value_at(c0, key) && final(ctx).search_cache@ == c0
                } else {
                    let conn = search_samples_conn(
                        old(ctx).store@,
                        search_term@,
                        fields.deep_view(),
                        limit,
                        after.deep_view(),
                        before.deep_view(),
                        skip,
                    );
                    r matches Ok(v) && v@ == conn && final(ctx).search_cache@ == store_spec(
                        c0,
                        key,
                        conn,
                        now,
                    )
                }
            }),
    {
        let key = QueryKey::SearchSamples {
            term: search_term.clone(),
            fields: clone_strings(&fields),
            limit,
            after: clone_opt_arg_bytes(&after),
            before: clone_opt_arg_bytes(&before),
            skip,
        };
        proof {
            assert(key@ =~= KeyV::SearchSamples {
                term: search_term@,
                fields: fields.deep_view(),
                limit,
                after: after.deep_view(),
                before: before.deep_view(),
                skip,
            });
        }
        let cached: Option<SampleConnection> = match ctx.search_cache.lookup(&key, now) {
            Some(v) => Some(v.clone()),
            None => None,
        };
        match cached {
            Some(v) => Ok(v),
            None => {
                let filter = Filter::Search { term: search_term, fields };
                let after_c = decode_opt_cursor(&after);
                let before_c = decode_opt_cursor(&before);
                let skip_n = clamp_count(skip);
                let limit_n = clamp_limit(limit);
                let conn = ctx.store.find(&filter, &after_c, &before_c, skip_n, &limit_n);
                ctx.search_cache.store(key, conn.clone(), now);
                Ok(conn)
            },
        }
    }

    /// Lists the samples whose name is among `names` and whose status
    /// window matches at `now`, without pagination bounds; cached per
    /// argument tuple.
    pub fn sample_by_names(
        ctx: &mut Context,
        names: Vec<String>,
        status: Option<Status>,
        now: u64,
    ) -> (r: Result<SampleConnection, ServiceError>)
        ensures
            same_env(*old(ctx), *final(ctx)),
            final(ctx).all_samples_cache@ == old(ctx).all_samples_cache@,
            final(ctx).search_cache@ == old(ctx).search_cache@,
            final(ctx).by_status_cache@ == old(ctx).by_status_cache@,
            ({
                let key = KeyV::SampleByNames { names: names.deep_view(), status };
                let c0 = old(ctx).by_names_cache@;
                if has_live(c0, key, now) {
                    r matches Ok(v) && v@ == value_at(c0, key) && final(ctx).by_names_cache@
                        == c0
                } else {
                    let conn = sample_by_names_conn(
                        old(ctx).store@,
                        names.deep_view(),
                        status,
                        now,
                    );
                    r matches Ok(v) && v@ == conn && final(ctx).by_names_cache@ == store_spec(
                        c0,
                        key,
                        conn,
                        now,
                    )
                }
            }),
    {
        let key = QueryKey::SampleByNames { names: clone_strings(&names), status };
        proof {
            assert(key@ =~= KeyV::SampleByNames { names: names.deep_view(), status });
        }
        let cached: Option<SampleConnection> = match ctx.by_names_cache.lookup(&key, now) {
            Some(v) => Some(v.clone()),
            None => None,
        };
        match cached {
            Some(v) => Ok(v),
            None => {
                let st = match status {
                    Some(st) => st,
                    None => Status::All,
                };
                let filter = Filter::ByNames { names, status: st, now };
                let none_cursor: Option<Cursor> = None;
                let no_limit: Option<usize> = None;
                let conn = ctx.store.find(&filter, &none_cursor, &none_cursor, 0, &no_limit);
                ctx.by_names_cache.store(key, conn.clone(), now);
                Ok(conn)
            },
        }
    }
}

// ---------------------------------------------------------------------------
// Mutations
// ---------------------------------------------------------------------------

/// The write operations of the layer. Each one checks the authorization
/// gate before any business logic runs, writes through to the store —
/// never through a cache — and invalidates nothing: readers may observe
/// results up to TTL seconds stale, by design.
pub struct Mutation;

impl Mutation {
    /// Creates a sample and returns it as re-read from the store after
    /// the write.
    ///
    /// Unauthorized requests fail closed with no store write. A
    /// supplied identifier that already exists fails with
    /// `DuplicateKey`, leaving the existing document unmodified.
    pub fn create_sample(
        ctx: &mut Context,
        new_sample: NewSample,
        created_by_id: Option<Id>,
        now: u64,
    ) -> (r: Result<Sample, ServiceError>)
        requires
            wf_store(old(ctx).store@),
        ensures
            wf_store(final(ctx).store@),
            same_caches(*old(ctx), *final(ctx)),
            opt_claims_view(final(ctx).claims) == opt_claims_view(old(ctx).claims),
            final(ctx).config@ == old(ctx).config@,
            !mutation_allowed(*old(ctx)) ==> (r matches Err(e) && e == ServiceError::Unauthorized
                && final(ctx).store@ == old(ctx).store@),
            mutation_allowed(*old(ctx)) ==> match r {
                Err(e) => {
                    &&& e == ServiceError::DuplicateKey
                    &&& final(ctx).store@ == old(ctx).store@
                    &&& new_sample@.id matches Some(i) && has_sample(old(ctx).store@, i)
                },
                Ok(s) => {
                    &&& !has_sample(old(ctx).store@, s@.id)
                    &&& (new_sample@.id matches Some(i) ==> s@.id == i)
                    &&& s@ == new_sample_doc(new_sample@, s@.id, opt_id_view(created_by_id), now)
                    &&& final(ctx).store@ == insert_sorted(old(ctx).store@, s@)
                },
            },
    {
        if !has_auth(ctx) && !ctx.config.disable_auth {
            return Err(ServiceError::Unauthorized);
        }
        let ghost S0 = ctx.store@;
        match ctx.store.insert_one(new_sample, created_by_id, now) {
            Err(e) => Err(e),
            Ok(id) => {
                proof {
                    lemma_find_sample_char(S0, id@);
                    assert(forall|j: int| 0 <= j < S0.len() ==> (#[trigger] S0[j]).id != id@);
                    lemma_insert_sorted_found(
                        S0,
                        new_sample_doc(new_sample@, id@, opt_id_view(created_by_id), now),
                    );
                }
                match ctx.store.find_one_by_id(&id) {
                    Some(item) => Ok(item),
                    None => Err(ServiceError::NotFound),
                }
            },
        }
    }

    /// Applies a partial patch to a sample and returns the patched
    /// document.
    ///
    /// Unauthorized requests fail closed with no store write; a missing
    /// identifier fails with `NotFound`.
    pub fn update_sample(
        ctx: &mut Context,
        id: &Id,
        update_sample: UpdateSample,
        updated_by_id: Option<Id>,
        now: u64,
    ) -> (r: Result<Sample, ServiceError>)
        requires
            wf_store(old(ctx).store@),
        ensures
            wf_store(final(ctx).store@),
            same_caches(*old(ctx), *final(ctx)),
            opt_claims_view(final(ctx).claims) == opt_claims_view(old(ctx).claims),
            final(ctx).config@ == old(ctx).config@,
            !mutation_allowed(*old(ctx)) ==> (r matches Err(e) && e == ServiceError::Unauthorized
                && final(ctx).store@ == old(ctx).store@),
            mutation_allowed(*old(ctx)) ==> match r {
                Err(e) => {
                    &&& e == ServiceError::NotFound
                    &&& !has_sample(old(ctx).store@, id@)
                    &&& final(ctx).store@ == old(ctx).store@
                },
                Ok(s) => {
                    &&& has_sample(old(ctx).store@, id@)
                    &&& s@ == patched_sample(
                        sample_at(old(ctx).store@, id@),
                        update_sample@,
                        opt_id_view(updated_by_id),
                        now,
                    )
                    &&& final(ctx).store@ == old(ctx).store@.update(
                        find_sample(old(ctx).store@, id@),
                        s@,
                    )
                },
            },
    {
        if !has_auth(ctx) && !ctx.config.disable_auth {
            return Err(ServiceError::Unauthorized);
        }
        ctx.store.update_one(id, &update_sample, updated_by_id, now)
    }

    /// Deletes a sample by identifier.
    ///
    /// Unauthorized requests fail closed with no store write. Deleting
    /// a missing identifier is an unsuccessful — not erroring — result.
    pub fn delete_sample(ctx: &mut Context, id: &Id, now: u64) -> (r: Result<
        DeleteResponse,
        ServiceError,
    >)
        requires
            wf_store(old(ctx).store@),
        ensures
            wf_store(final(ctx).store@),
            same_caches(*old(ctx), *final(ctx)),
            opt_claims_view(final(ctx).claims) == opt_claims_view(old(ctx).claims),
            final(ctx).config@ == old(ctx).config@,
            !mutation_allowed(*old(ctx)) ==> (r matches Err(e) && e == ServiceError::Unauthorized
                && final(ctx).store@ == old(ctx).store@),
            mutation_allowed(*old(ctx)) ==> (r matches Ok(d) && {
                &&& d.id@ == id@
                &&& d.success == has_sample(old(ctx).store@, id@)
                &&& final(ctx).store@ == if has_sample(old(ctx).store@, id@) {
                    old(ctx).store@.remove(find_sample(old(ctx).store@, id@))
                } else {
                    old(ctx).store@
                }
            }),
    {
        if !has_auth(ctx) && !ctx.config.disable_auth {
            return Err(ServiceError::Unauthorized);
        }
        Ok(ctx.store.delete_one_by_id(id))
    }

    /// Adds a batch of embedded values to a sample and returns the
    /// parent as re-read from the store after the write.
    ///
    /// Unauthorized requests fail closed with no store write. The batch
    /// lands all together or not at all; entries without an identifier
    /// receive freshly generated, pairwise distinct identifiers.
    #[verifier::rlimit(60)]
    pub fn add_values_to_sample(
        ctx: &mut Context,
        sample_id: &Id,
        new_values: Vec<NewEmbedded>,
        created_by_id: Option<Id>,
        now: u64,
    ) -> (r: Result<Sample, ServiceError>)
        requires
            wf_store(old(ctx).store@),
        ensures
            wf_store(final(ctx).store@),
            same_caches(*old(ctx), *final(ctx)),
            opt_claims_view(final(ctx).claims) == opt_claims_view(old(ctx).claims),
            final(ctx).config@ == old(ctx).config@,
            !mutation_allowed(*old(ctx)) ==> (r matches Err(e) && e == ServiceError::Unauthorized
                && final(ctx).store@ == old(ctx).store@),
            mutation_allowed(*old(ctx)) ==> match r {
                Err(e) => {
                    &&& final(ctx).store@ == old(ctx).store@
                    &&& (e == ServiceError::NotFound || e == ServiceError::DuplicateKey)
                    &&& ((e == ServiceError::NotFound) <==> !has_sample(
                        old(ctx).store@,
                        sample_id@,
                    ))
                    &&& (e == ServiceError::DuplicateKey ==> add_conflict(
                        sample_at(old(ctx).store@, sample_id@).values,
                        new_values.deep_view(),
                    ))
                },
                Ok(s) => {
                    let S0 = old(ctx).store@;
                    let target = sample_at(S0, sample_id@);
                    let nvs = new_values.deep_view();
                    let n = target.values.len() as int;
                    &&& has_sample(S0, sample_id@)
                    &&& !add_conflict(target.values, nvs)
                    &&& s@.id == sample_id@
                    &&& s@.node == touched_node(target.node, None, now)
                    &&& s@.name == target.name
                    &&& s@.description == target.description
                    &&& s@.available_date == target.available_date
                    &&& s@.expiration_date == target.expiration_date
                    &&& s@.values.len() == n + nvs.len()
                    &&& s@.values.subrange(0, n) == target.values
                    &&& (forall|j: int| 0 <= j < nvs.len() ==> {
                        let e = #[trigger] s@.values[n + j];
                        &&& e.node == stamped_node(now, opt_id_view(created_by_id))
                        &&& e.embedded_type == nvs[j].embedded_type
                        &&& e.value == nvs[j].value
                        &&& (nvs[j].id matches Some(g) ==> e.id == g)
                        &&& (nvs[j].id is None ==> !has_value(target.values, e.id))
                    })
                    &&& unique_value_ids(s@.values)
                    &&& final(ctx).store@ == S0.update(find_sample(S0, sample_id@), s@)
                },
            },
    {
        if !has_auth(ctx) && !ctx.config.disable_auth {
            return Err(ServiceError::Unauthorized);
        }
        let ghost S0 = ctx.store@;
        match ctx.store.insert_embedded(sample_id, &new_values, created_by_id, now) {
            Err(e) => Err(e),
            Ok(ids) => {
                let ghost target = sample_at(S0, sample_id@);
                let ghost nvs = new_values.deep_view();
                let ghost idsv = ids.deep_view();
                let ghost appended = target.values + Seq::new(
                    nvs.len(),
                    |j: int| embedded_doc(
                        nvs[j],
                        idsv[j],
                        opt_id_view(created_by_id),
                        now,
                    ),
                );
                let ghost pv = parent_with_values(target, appended, now);
                proof {
                    lemma_find_sample_char(S0, sample_id@);
                    lemma_update_found(S0, find_sample(S0, sample_id@), pv);
                }
                match ctx.store.find_one_by_id(sample_id) {
                    Some(item) => {
                        proof {
                            assert(item@ == pv);
                            assert(pv.values.subrange(0, target.values.len() as int)
                                =~= target.values);
                            assert(unique_value_ids(pv.values)) by {
                                assert(wf_store(ctx.store@));
                                assert(wf_sample(
                                    ctx.store@[find_sample(S0, sample_id@)],
                                ));
                            }
                        }
                        Ok(item)
                    },
                    None => Err(ServiceError::NotFound),
                }
            },
        }
    }

    /// Removes one embedded value from a sample.
    ///
    /// Unauthorized requests fail closed with no store write. Removing
    /// an absent embedded identifier from a present sample is an
    /// unsuccessful — not erroring — result; an absent sample fails
    /// with `NotFound`.
    pub fn remove_value_from_sample(
        ctx: &mut Context,
        sample_id: &Id,
        embedded_id: &Id,
        now: u64,
    ) -> (r: Result<DeleteResponse, ServiceError>)
        requires
            wf_store(old(ctx).store@),
        ensures
            wf_store(final(ctx).store@),
            same_caches(*old(ctx), *final(ctx)),
            opt_claims_view(final(ctx).claims) == opt_claims_view(old(ctx).claims),
            final(ctx).config@ == old(ctx).config@,
            !mutation_allowed(*old(ctx)) ==> (r matches Err(e) && e == ServiceError::Unauthorized
                && final(ctx).store@ == old(ctx).store@),
            mutation_allowed(*old(ctx)) ==> match r {
                Err(e) => {
                    &&& e == ServiceError::NotFound
                    &&& !has_sample(old(ctx).store@, sample_id@)
                    &&& final(ctx).store@ == old(ctx).store@
                },
                Ok(d) => {
                    let S0 = old(ctx).store@;
                    let target = sample_at(S0, sample_id@);
                    &&& has_sample(S0, sample_id@)
                    &&& d.id@ == embedded_id@
                    &&& d.success == has_value(target.values, embedded_id@)
                    &&& final(ctx).store@ == if has_value(target.values, embedded_id@) {
                        S0.update(
                            find_sample(S0, sample_id@),
                            parent_minus_value(
                                target,
                                find_value(target.values, embedded_id@),
                            ),
                        )
                    } else {
                        S0
                    }
                },
            },
    {
        if !has_auth(ctx) && !ctx.config.disable_auth {
            return Err(ServiceError::Unauthorized);
        }
        ctx.store.delete_embedded(sample_id, embedded_id)
    }

    /// Applies a partial patch to one embedded value of a sample and
    /// returns the updated parent.
    ///
    /// Unauthorized requests fail closed with no store write; a missing
    /// sample or embedded identifier fails with `NotFound`.
    pub fn update_value_for_sample(
        ctx: &mut Context,
        sample_id: &Id,
        embedded_id: &Id,
        update_value: UpdateEmbedded,
        updated_by_id: Option<Id>,
        now: u64,
    ) -> (r: Result<Sample, ServiceError>)
        requires
            wf_store(old(ctx).store@),
        ensures
            wf_store(final(ctx).store@),
            same_caches(*old(ctx), *final(ctx)),
            opt_claims_view(final(ctx).claims) == opt_claims_view(old(ctx).claims),
            final(ctx).config@ == old(ctx).config@,
            !mutation_allowed(*old(ctx)) ==> (r matches Err(e) && e == ServiceError::Unauthorized
                && final(ctx).store@ == old(ctx).store@),
            mutation_allowed(*old(ctx)) ==> match r {
                Err(e) => {
                    &&& e == ServiceError::NotFound
                    &&& final(ctx).store@ == old(ctx).store@
                    &&& !(has_sample(old(ctx).store@, sample_id@) && has_value(
                        sample_at(old(ctx).store@, sample_id@).values,
                        embedded_id@,
                    ))
                },
                Ok(s) => {
                    let S0 = old(ctx).store@;
                    let target = sample_at(S0, sample_id@);
                    let vi = find_value(target.values, embedded_id@);
                    &&& has_sample(S0, sample_id@)
                    &&& has_value(target.values, embedded_id@)
                    &&& s@ == parent_with_values(
                        target,
                        target.values.update(
                            vi,
                            patched_embedded(
                                target.values[vi],
                                update_value,
                                opt_id_view(updated_by_id),
                                now,
                            ),
                        ),
                        now,
                    )
                    &&& final(ctx).store@ == S0.update(find_sample(S0, sample_id@), s@)
                },
            },
    {
        if !has_auth(ctx) && !ctx.config.disable_auth {
            return Err(ServiceError::Unauthorized);
        }
        ctx.store.update_embedded(sample_id, embedded_id, &update_value, updated_by_id, now)
    }
}

// ---------------------------------------------------------------------------
// Wire patches
// ---------------------------------------------------------------------------

/// Mathematical view of [`PatchValue`].
#[verifier::ext_equal]
pub enum PatchValueV {
    Text(Seq<char>),
    Number(i64),
}

/// One value of a wire patch: text or a number.
pub enum PatchValue {
    Text(String),
    Number(i64),
}

impl View for PatchValue {
    type V = PatchValueV;

    open spec fn view(&self) -> PatchValueV {
        match self {
            PatchValue::Text(t) => PatchValueV::Text(t@),
            PatchValue::Number(n) => PatchValueV::Number(*n),
        }
    }
}

/// Mathematical view of [`PatchField`].
#[verifier::ext_equal]
pub struct PatchFieldV {
    pub name: Seq<char>,
    pub value: PatchValueV,
}

/// One field of a wire patch, as the transport hands it over: a field
/// name and a value.
pub struct PatchField {
    pub name: String,
    pub value: PatchValue,
}

impl View for PatchField {
    type V = PatchFieldV;

    open spec fn view(&self) -> PatchFieldV {
        PatchFieldV { name: self.name@, value: self.value@ }
    }
}

impl DeepView for PatchField {
    type V = PatchFieldV;

    open spec fn deep_view(&self) -> PatchFieldV {
        self.view()
    }
}

/// Whether one wire patch field is recognized for a sample update: a
/// known field name carrying a value of the right shape (dates must fit
/// the wire's signed 32-bit range).
pub open spec fn sample_patch_field_ok(f: PatchFieldV) -> bool {
    if f.name == "name"@ || f.name == "description"@ {
        f.value is Text
    } else if f.name == "availableDate"@ || f.name == "expirationDate"@ {
        match f.value {
            PatchValueV::Number(n) => i32::MIN <= n <= i32::MAX,
            PatchValueV::Text(_) => false,
        }
    } else {
        false
    }
}

/// The empty patch: nothing changes.
pub open spec fn empty_sample_patch() -> UpdateSampleV {
    UpdateSampleV { name: None, description: None, available_date: None, expiration_date: None }
}

/// The typed patch a list of recognized wire fields denotes, later
/// fields overriding earlier ones; an unrecognized field contributes
/// nothing (the parser rejects the whole list before this matters).
pub open spec fn sample_patch_of(fs: Seq<PatchFieldV>) -> UpdateSampleV
    decreases fs.len(),
{
    if fs.len() == 0 {
        empty_sample_patch()
    } else {
        let p = sample_patch_of(fs.drop_last());
        let f = fs.last();
        if f.name == "name"@ {
            match f.value {
                PatchValueV::Text(t) => UpdateSampleV { name: Some(t), ..p },
                PatchValueV::Number(_) => p,
            }
        } else if f.name == "description"@ {
            match f.value {
                PatchValueV::Text(t) => UpdateSampleV { description: Some(t), ..p },
                PatchValueV::Number(_) => p,
            }
        } else if f.name == "availableDate"@ {
            match f.value {
                PatchValueV::Number(n) => if i32::MIN <= n <= i32::MAX {
                    UpdateSampleV { available_date: Some(n as i32), ..p }
                } else {
                    p
                },
                PatchValueV::Text(_) => p,
            }
        } else if f.name == "expirationDate"@ {
            match f.value {
                PatchValueV::Number(n) => if i32::MIN <= n <= i32::MAX {
                    UpdateSampleV { expiration_date: Some(n as i32), ..p }
                } else {
                    p
                },
                PatchValueV::Text(_) => p,
            }
        } else {
            p
        }
    }
}

/// Reads a wire patch into a typed sample update, all or nothing.
///
/// Fails with `ValidationError` exactly when some field is
/// unrecognized — before any mutation could run, so a rejected patch
/// leaves every document exactly as it was.
pub fn parse_update_sample(fields: &Vec<PatchField>) -> (r: Result<UpdateSample, ServiceError>)
    ensures
        (forall|j: int|
            0 <= j < fields.deep_view().len() ==> sample_patch_field_ok(
                #[trigger] fields.deep_view()[j],
            )) <==> r is Ok,
        r matches Err(e) ==> e == ServiceError::ValidationError,
        r matches Ok(u) ==> u@ == sample_patch_of(fields.deep_view()),
{
    let ghost fv = fields.deep_view();
    let name_key = String::from_str("name");
    let description_key = String::from_str("description");
    let available_key = String::from_str("availableDate");
    let expiration_key = String::from_str("expirationDate");
    let mut i: usize = 0;
    while i < fields.len()
        invariant
            0 <= i <= fv.len(),
            fv == fields.deep_view(),
            fv.len() == fields@.len(),
            name_key@ == "name"@,
            description_key@ == "description"@,
            available_key@ == "availableDate"@,
            expiration_key@ == "expirationDate"@,
            forall|j: int| 0 <= j < i ==> sample_patch_field_ok(#[trigger] fv[j]),
        decreases fv.len() - i,
    {
        proof {
            assert(fields[i as int]@ == fv[i as int]);
        }
        let f = &fields[i];
        let ok: bool = if f.name == name_key || f.name == description_key {
            match &f.value {
                PatchValue::Text(_) => true,
                PatchValue::Number(_) => false,
            }
        } else if f.name == available_key || f.name == expiration_key {
            match &f.value {
                PatchValue::Number(n) => i32::MIN as i64 <= *n && *n <= i32::MAX as i64,
                PatchValue::Text(_) => false,
            }
        } else {
            false
        };
        if !ok {
            proof {
                assert(!sample_patch_field_ok(fv[i as int]));
            }
            return Err(ServiceError::ValidationError);
        }
        i = i + 1;
    }
    let mut u = UpdateSample { name: None, description: None, available_date: None, expiration_date: None };
    proof {
        assert(u@ =~= sample_patch_of(fv.take(0)));
    }
    let mut k: usize = 0;
    while k < fields.len()
        invariant
            0 <= k <= fv.len(),
            fv == fields.deep_view(),
            fv.len() == fields@.len(),
            name_key@ == "name"@,
            description_key@ == "description"@,
            available_key@ == "availableDate"@,
            expiration_key@ == "expirationDate"@,
            u@ == sample_patch_of(fv.take(k as int)),
        decreases fv.len() - k,
    {
        proof {
            assert(fields[k as int]@ == fv[k as int]);
            assert(fv.take(k + 1).drop_last() =~= fv.take(k as int));
            assert(fv.take(k + 1).last() == fv[k as int]);
        }
        let f = &fields[k];
        if f.name == name_key {
            match &f.value {
                PatchValue::Text(t) => {
                    u.name = Some(t.clone());
                },
                PatchValue::Number(_) => {},
            }
        } else if f.name == description_key {
            match &f.value {
                PatchValue::Text(t) => {
                    u.description = Some(t.clone());
                },
                PatchValue::Number(_) => {},
            }
        } else if f.name == available_key {
            match &f.value {
                PatchValue::Number(n) => {
                    if i32::MIN as i64 <= *n && *n <= i32::MAX as i64 {
                        u.available_date = Some(*n as i32);
                    }
                },
                PatchValue::Text(_) => {},
            }
        } else if f.name == expiration_key {
            match &f.value {
                PatchValue::Number(n) => {
                    if i32::MIN as i64 <= *n && *n <= i32::MAX as i64 {
                        u.expiration_date = Some(*n as i32);
                    }
                },
                PatchValue::Text(_) => {},
            }
        }
        proof {
            assert(u@ =~= sample_patch_of(fv.take(k + 1)));
        }
        k = k + 1;
    }
    proof {
        assert(fv.take(fv.len() as int) =~= fv);
    }
    Ok(u)
}

/// Whether one wire patch field is recognized for an embedded-value
/// update: the kind as one of its named constants, or a number.
pub open spec fn embedded_patch_field_ok(f: PatchFieldV) -> bool {
    if f.name == "embeddedType"@ {
        f.value == PatchValueV::Text("ONE"@) || f.value == PatchValueV::Text("ANOTHER"@)
    } else if f.name == "value"@ {
        f.value is Number
    } else {
        false
    }
}

/// The typed patch a list of recognized embedded wire fields denotes.
pub open spec fn embedded_patch_of(fs: Seq<PatchFieldV>) -> UpdateEmbedded
    decreases fs.len(),
{
    if fs.len() == 0 {
        UpdateEmbedded { embedded_type: None, value: None }
    } else {
        let p = embedded_patch_of(fs.drop_last());
        let f = fs.last();
        if f.name == "embeddedType"@ {
            if f.value == PatchValueV::Text("ONE"@) {
                UpdateEmbedded { embedded_type: Some(EmbeddedType::One), ..p }
            } else if f.value == PatchValueV::Text("ANOTHER"@) {
                UpdateEmbedded { embedded_type: Some(EmbeddedType::Another), ..p }
            } else {
                p
            }
        } else if f.name == "value"@ {
            match f.value {
                PatchValueV::Number(n) => UpdateEmbedded { value: Some(n), ..p },
                PatchValueV::Text(_) => p,
            }
        } else {
            p
        }
    }
}

/// Reads a wire patch into a typed embedded-value update, all or
/// nothing, with the same rejection rule as the sample patch.
pub fn parse_update_embedded(fields: &Vec<PatchField>) -> (r: Result<UpdateEmbedded, ServiceError>)
    ensures
        (forall|j: int|
            0 <= j < fields.deep_view().len() ==> embedded_patch_field_ok(
                #[trigger] fields.deep_view()[j],
            )) <==> r is Ok,
        r matches Err(e) ==> e == ServiceError::ValidationError,
        r matches Ok(u) ==> u == embedded_patch_of(fields.deep_view()),
{
    let ghost fv = fields.deep_view();
    let type_key = String::from_str("embeddedType");
    let value_key = String::from_str("value");
    let one_lit = String::from_str("ONE");
    let another_lit = String::from_str("ANOTHER");
    let mut i: usize = 0;
    while i < fields.len()
        invariant
            0 <= i <= fv.len(),
            fv == fields.deep_view(),
            fv.len() == fields@.len(),
            type_key@ == "embeddedType"@,
            value_key@ == "value"@,
            one_lit@ == "ONE"@,
            another_lit@ == "ANOTHER"@,
            forall|j: int| 0 <= j < i ==> embedded_patch_field_ok(#[trigger] fv[j]),
        decreases fv.len() - i,
    {
        proof {
            assert(fields[i as int]@ == fv[i as int]);
        }
        let f = &fields[i];
        let ok: bool = if f.name == type_key {
            match &f.value {
                PatchValue::Text(t) => *t == one_lit || *t == another_lit,
                PatchValue::Number(_) => false,
            }
        } else if f.name == value_key {
            match &f.value {
                PatchValue::Number(_) => true,
                PatchValue::Text(_) => false,
            }
        } else {
            false
        };
        if !ok {
            proof {
                assert(!embedded_patch_field_ok(fv[i as int]));
            }
            return Err(ServiceError::ValidationError);
        }
        i = i + 1;
    }
    let mut u = UpdateEmbedded { embedded_type: None, value: None };
    proof {
        assert(u == embedded_patch_of(fv.take(0)));
    }
    let mut k: usize = 0;
    while k < fields.len()
        invariant
            0 <= k <= fv.len(),
            fv == fields.deep_view(),
            fv.len() == fields@.len(),
            type_key@ == "embeddedType"@,
            value_key@ == "value"@,
            one_lit@ == "ONE"@,
            another_lit@ == "ANOTHER"@,
            u == embedded_patch_of(fv.take(k as int)),
        decreases fv.len() - k,
    {
        proof {
            assert(fields[k as int]@ == fv[k as int]);
            assert(fv.take(k + 1).drop_last() =~= fv.take(k as int));
            assert(fv.take(k + 1).last() == fv[k as int]);
        }
        let f = &fields[k];
        if f.name == type_key {
            match &f.value {
                PatchValue::Text(t) => {
                    if *t == one_lit {
                        u.embedded_type = Some(EmbeddedType::One);
                    } else if *t == another_lit {
                        u.embedded_type = Some(EmbeddedType::Another);
                    }
                },
                PatchValue::Number(_) => {},
            }
        } else if f.name == value_key {
            match &f.value {
                PatchValue::Number(n) => {
                    u.value = Some(*n);
                },
                PatchValue::Text(_) => {},
            }
        }
        k = k + 1;
    }
    proof {
        assert(fv.take(fv.len() as int) =~= fv);
    }
    Ok(u)
}

} // verus!
