use vstd::prelude::*;

use crate::ids::{copy_bytes, lemma_lex_lt_asym, lemma_lex_lt_total, lemma_lex_lt_trans, lex_lt, Id};
use crate::models::{Sample, SampleV};
use crate::numerals::{dec_rep, is_digit, lemma_dec_rep_injective, lemma_dec_rep_wf, parse_u64, render_u64};

verus! {

// ---------------------------------------------------------------------------
// Cursors and their opaque encoding
// ---------------------------------------------------------------------------

/// Mathematical view of [`Cursor`].
#[verifier::ext_equal]
pub struct CursorV {
    pub created: u64,
    pub id: Seq<u8>,
}

/// A position in the fixed sort order: the sort-key value (creation
/// stamp) and the identifier of the item at a page boundary.
pub struct Cursor {
    pub created: u64,
    pub id: Id,
}

impl View for Cursor {
    type V = CursorV;

    open spec fn view(&self) -> CursorV {
        CursorV { created: self.created, id: self.id@ }
    }
}

impl Clone for Cursor {
    fn clone(&self) -> (r: Self)
        ensures
            r@ == self@,
    {
        let r = Cursor { created: self.created, id: self.id.clone() };
        proof {
            assert(r@ =~= self@);
        }
        r
    }
}

/// The opaque byte encoding of a cursor: the decimal numeral of the
/// creation stamp, a separator, then the raw identifier bytes.
pub open spec fn cursor_rep(c: CursorV) -> Seq<u8> {
    dec_rep(c.created as nat) + seq![58u8] + c.id
}

/// Encodes a cursor into its opaque wire form.
pub fn encode_cursor(c: &Cursor) -> (r: Vec<u8>)
    ensures
        r@ == cursor_rep(c@),
{
    let mut v = render_u64(c.created);
    v.push(58);
    let mut id_bytes = copy_bytes(c.id.bytes());
    v.append(&mut id_bytes);
    proof {
        assert(v@ =~= cursor_rep(c@));
    }
    v
}

/// Decodes an opaque cursor.
///
/// Exactly the byte strings produced by `encode_cursor` decode, each to
/// the cursor it was encoded from; anything else yields `None`.
pub fn decode_cursor(s: &[u8]) -> (r: Option<Cursor>)
    ensures
        r matches Some(c) ==> s@ == cursor_rep(c@),
        forall|cv: CursorV| s@ == cursor_rep(cv) ==> (r matches Some(c) && c@ == cv),
{
    let mut f: usize = 0;
    while f < s.len() && s[f] != 58
        invariant
            0 <= f <= s@.len(),
            forall|j: int| 0 <= j < f ==> s@[j] != 58,
        decreases s@.len() - f,
    {
        f = f + 1;
    }
    if f == s.len() {
        proof {
            assert forall|cv: CursorV| s@ != cursor_rep(cv) by {
                if s@ == cursor_rep(cv) {
                    lemma_dec_rep_wf(cv.created as nat);
                    let n = dec_rep(cv.created as nat).len() as int;
                    assert(s@[n] == 58);
                }
            }
        }
        return None;
    }
    let head = &s[0..f];
    let num = parse_u64(head);
    match num {
        Some(created) => {
            let mut id_bytes: Vec<u8> = Vec::new();
            let mut j: usize = f + 1;
            while j < s.len()
                invariant
                    f + 1 <= j <= s@.len(),
                    id_bytes@ == s@.subrange(f + 1, j as int),
                decreases s@.len() - j,
            {
                id_bytes.push(s[j]);
                proof {
                    assert(id_bytes@ =~= s@.subrange(f + 1, j + 1));
                }
                j = j + 1;
            }
            let c = Cursor { created, id: Id::new(id_bytes) };
            proof {
                assert(s@.subrange(0, f as int) == dec_rep(created as nat));
                assert(s@ =~= cursor_rep(c@));
                assert forall|cv: CursorV| s@ == cursor_rep(cv) implies c@ == cv by {
                    lemma_cursor_rep_splits(cv, s@);
                    lemma_dec_rep_injective(created as nat, cv.created as nat);
                    assert(c@.id =~= cv.id);
                }
            }
            Some(c)
        },
        None => {
            proof {
                assert forall|cv: CursorV| s@ != cursor_rep(cv) by {
                    if s@ == cursor_rep(cv) {
                        lemma_cursor_rep_splits(cv, s@);
                    }
                }
            }
            None
        },
    }
}

/// In an encoded cursor the first separator stands right after the
/// numeral, so the split at the first separator recovers the parts.
proof fn lemma_cursor_rep_splits(cv: CursorV, s: Seq<u8>)
    requires
        s == cursor_rep(cv),
        exists|f: int| 0 <= f < s.len() && s[f] == 58 && forall|j: int| 0 <= j < f ==> s[j] != 58,
    ensures
        ({
            let f = choose|f: int|
                0 <= f < s.len() && s[f] == 58 && (forall|j: int| 0 <= j < f ==> s[j] != 58);
            &&& f == dec_rep(cv.created as nat).len()
            &&& s.subrange(0, f) == dec_rep(cv.created as nat)
            &&& s.subrange(f + 1, s.len() as int) == cv.id
        }),
{
    lemma_dec_rep_wf(cv.created as nat);
    let d = dec_rep(cv.created as nat);
    let f = choose|f: int|
        0 <= f < s.len() && s[f] == 58 && (forall|j: int| 0 <= j < f ==> s[j] != 58);
    assert(forall|j: int| 0 <= j < d.len() ==> is_digit(#[trigger] d[j]));
    assert(forall|j: int| 0 <= j < d.len() ==> s[j] == d[j] && s[j] != 58);
    assert(s[d.len() as int] == 58);
    if f < d.len() {
        assert(s[f] != 58);
    }
    assert(f == d.len());
    assert(s.subrange(0, f) =~= d);
    assert(s.subrange(f + 1, s.len() as int) =~= cv.id);
}

// ---------------------------------------------------------------------------
// The sort order
// ---------------------------------------------------------------------------

/// The fixed total order of result sets: creation stamp descending, ties
/// broken by identifier ascending.
pub open spec fn sample_lt(a: SampleV, b: SampleV) -> bool {
    a.node.created > b.node.created || (a.node.created == b.node.created && lex_lt(a.id, b.id))
}

/// Non-strict companion of `sample_lt`: strictly earlier, or the same
/// sort key.
pub open spec fn sample_le(a: SampleV, b: SampleV) -> bool {
    sample_lt(a, b) || (a.node.created == b.node.created && a.id == b.id)
}

/// The cursor that names a sample's position.
pub open spec fn cursor_of(s: SampleV) -> CursorV {
    CursorV { created: s.node.created, id: s.id }
}

/// Whether `s` lies strictly after the position `c` in the sort order.
pub open spec fn after_cursor(c: CursorV, s: SampleV) -> bool {
    s.node.created < c.created || (s.node.created == c.created && lex_lt(c.id, s.id))
}

/// Whether `s` lies strictly before the position `c` in the sort order.
pub open spec fn before_cursor(s: SampleV, c: CursorV) -> bool {
    s.node.created > c.created || (s.node.created == c.created && lex_lt(s.id, c.id))
}

/// A result set in sort order, possibly with ties.
pub open spec fn sorted_samples(S: Seq<SampleV>) -> bool {
    forall|i: int, j: int| 0 <= i < j < S.len() ==> sample_le(#[trigger] S[i], #[trigger] S[j])
}

/// Pairwise distinct sample identifiers.
pub open spec fn unique_sample_ids(S: Seq<SampleV>) -> bool {
    forall|i: int, j: int| 0 <= i < j < S.len() ==> (#[trigger] S[i]).id != (#[trigger] S[j]).id
}

/// Two samples with distinct identifiers are strictly ordered one way or
/// the other.
pub proof fn lemma_sample_order_total(a: SampleV, b: SampleV)
    requires
        a.id != b.id,
    ensures
        sample_lt(a, b) != sample_lt(b, a),
{
    lemma_lex_lt_total(a.id, b.id);
    if lex_lt(a.id, b.id) {
        lemma_lex_lt_asym(a.id, b.id);
    }
    if lex_lt(b.id, a.id) {
        lemma_lex_lt_asym(b.id, a.id);
    }
}

/// `after_cursor` against a sample's own cursor is strict order after
/// that sample.
pub proof fn lemma_after_cursor_is_lt(b: SampleV, s: SampleV)
    ensures
        after_cursor(cursor_of(b), s) == sample_lt(b, s),
{
}

/// Decides `sample_lt`.
pub fn sample_before(a: &Sample, b: &Sample) -> (r: bool)
    ensures
        r == sample_lt(a@, b@),
{
    if a.node.date_created > b.node.date_created {
        true
    } else if a.node.date_created == b.node.date_created {
        a.id.before(&b.id)
    } else {
        false
    }
}

/// Decides `after_cursor`.
pub fn check_after_cursor(c: &Cursor, s: &Sample) -> (r: bool)
    ensures
        r == after_cursor(c@, s@),
{
    if s.node.date_created < c.created {
        true
    } else if s.node.date_created == c.created {
        c.id.before(&s.id)
    } else {
        false
    }
}

/// Decides `before_cursor`.
pub fn check_before_cursor(s: &Sample, c: &Cursor) -> (r: bool)
    ensures
        r == before_cursor(s@, c@),
{
    if s.node.date_created > c.created {
        true
    } else if s.node.date_created == c.created {
        s.id.before(&c.id)
    } else {
        false
    }
}

// ---------------------------------------------------------------------------
// Page windows
// ---------------------------------------------------------------------------

/// The smaller of two integers.
pub open spec fn int_min(a: int, b: int) -> int {
    if a < b {
        a
    } else {
        b
    }
}

/// The index of the first item strictly after position `c`, or the
/// length when every item lies at or before `c`.
pub open spec fn first_after(S: Seq<SampleV>, c: CursorV) -> int
    decreases S.len(),
{
    if S.len() == 0 {
        0
    } else if after_cursor(c, S[0]) {
        0
    } else {
        1 + first_after(S.skip(1), c)
    }
}

/// The index of the first item not strictly before position `c`, or the
/// length when every item lies before `c`.
pub open spec fn first_not_before(S: Seq<SampleV>, c: CursorV) -> int
    decreases S.len(),
{
    if S.len() == 0 {
        0
    } else if !before_cursor(S[0], c) {
        0
    } else {
        1 + first_not_before(S.skip(1), c)
    }
}

/// An index with nothing after `c` below it, and (unless it is the
/// length) an item after `c` at it, is exactly `first_after`.
pub proof fn lemma_first_after_found(S: Seq<SampleV>, c: CursorV, k: int)
    requires
        0 <= k <= S.len(),
        forall|j: int| 0 <= j < k ==> !after_cursor(c, #[trigger] S[j]),
        k < S.len() ==> after_cursor(c, S[k]),
    ensures
        first_after(S, c) == k,
    decreases S.len(),
{
    if S.len() == 0 {
    } else if after_cursor(c, S[0]) {
        assert(k == 0) by {
            if k > 0 {
                assert(!after_cursor(c, S[0]));
            }
        }
    } else {
        assert(k >= 1);
        let T = S.skip(1);
        assert(forall|j: int| 0 <= j < k - 1 ==> !after_cursor(c, #[trigger] T[j]));
        assert(k - 1 < T.len() ==> after_cursor(c, T[k - 1]));
        lemma_first_after_found(T, c, k - 1);
    }
}

/// The counterpart of `lemma_first_after_found` for `first_not_before`.
pub proof fn lemma_first_not_before_found(S: Seq<SampleV>, c: CursorV, k: int)
    requires
        0 <= k <= S.len(),
        forall|j: int| 0 <= j < k ==> before_cursor(#[trigger] S[j], c),
        k < S.len() ==> !before_cursor(S[k], c),
    ensures
        first_not_before(S, c) == k,
    decreases S.len(),
{
    if S.len() == 0 {
    } else if !before_cursor(S[0], c) {
        assert(k == 0) by {
            if k > 0 {
                assert(before_cursor(S[0], c));
            }
        }
    } else {
        assert(k >= 1);
        let T = S.skip(1);
        assert(forall|j: int| 0 <= j < k - 1 ==> before_cursor(#[trigger] T[j], c));
        assert(k - 1 < T.len() ==> !before_cursor(T[k - 1], c));
        lemma_first_not_before_found(T, c, k - 1);
    }
}

/// `first_after` stays within the index range.
pub proof fn lemma_first_after_bounds(S: Seq<SampleV>, c: CursorV)
    ensures
        0 <= first_after(S, c) <= S.len(),
    decreases S.len(),
{
    if S.len() > 0 && !after_cursor(c, S[0]) {
        lemma_first_after_bounds(S.skip(1), c);
    }
}

/// `first_not_before` stays within the index range.
pub proof fn lemma_first_not_before_bounds(S: Seq<SampleV>, c: CursorV)
    ensures
        0 <= first_not_before(S, c) <= S.len(),
    decreases S.len(),
{
    if S.len() > 0 && before_cursor(S[0], c) {
        lemma_first_not_before_bounds(S.skip(1), c);
    }
}

/// Where the cursor-bounded window starts.
pub open spec fn window_lo(S: Seq<SampleV>, after: Option<CursorV>) -> int {
    match after {
        None => 0,
        Some(c) => first_after(S, c),
    }
}

/// Where the cursor-bounded window ends.
pub open spec fn window_hi(S: Seq<SampleV>, before: Option<CursorV>) -> int {
    match before {
        None => S.len() as int,
        Some(c) => first_not_before(S, c),
    }
}

/// The first index of the returned page: the cursor window's start,
/// advanced by `skip` but never past the window's end.
pub open spec fn page_lo(
    S: Seq<SampleV>,
    after: Option<CursorV>,
    before: Option<CursorV>,
    skip: int,
) -> int {
    let hi = window_hi(S, before);
    let base = int_min(window_lo(S, after), hi);
    int_min(base + skip, hi)
}

/// One past the last index of the returned page: `limit` items from the
/// page's start, but never past the window's end; no limit means the
/// whole window.
pub open spec fn page_hi(
    S: Seq<SampleV>,
    after: Option<CursorV>,
    before: Option<CursorV>,
    skip: int,
    limit: Option<int>,
) -> int {
    let hi = window_hi(S, before);
    let lo = page_lo(S, after, before, skip);
    match limit {
        None => hi,
        Some(l) => int_min(lo + l, hi),
    }
}

// ---------------------------------------------------------------------------
// Connections
// ---------------------------------------------------------------------------

/// Mathematical view of [`PageInfo`].
#[verifier::ext_equal]
pub struct PageInfoV {
    pub has_next_page: bool,
    pub has_previous_page: bool,
    pub start_cursor: Option<Seq<u8>>,
    pub next_cursor: Option<Seq<u8>>,
}

/// Pagination metadata of a page of results.
///
/// `has_next_page` holds exactly when an item exists strictly beyond the
/// last returned item in sort order, `has_previous_page` symmetrically;
/// the cursors name the first and last returned items, encoded.
pub struct PageInfo {
    pub has_next_page: bool,
    pub has_previous_page: bool,
    pub start_cursor: Option<Vec<u8>>,
    pub next_cursor: Option<Vec<u8>>,
}

impl View for PageInfo {
    type V = PageInfoV;

    open spec fn view(&self) -> PageInfoV {
        PageInfoV {
            has_next_page: self.has_next_page,
            has_previous_page: self.has_previous_page,
            start_cursor: self.start_cursor.deep_view(),
            next_cursor: self.next_cursor.deep_view(),
        }
    }
}

/// Clones an optional byte string.
pub fn clone_opt_bytes(o: &Option<Vec<u8>>) -> (r: Option<Vec<u8>>)
    ensures
        r.deep_view() == o.deep_view(),
{
    match o {
        Some(b) => Some(copy_bytes(b)),
        None => None,
    }
}

impl Clone for PageInfo {
    fn clone(&self) -> (r: Self)
        ensures
            r@ == self@,
    {
        let r = PageInfo {
            has_next_page: self.has_next_page,
            has_previous_page: self.has_previous_page,
            start_cursor: clone_opt_bytes(&self.start_cursor),
            next_cursor: clone_opt_bytes(&self.next_cursor),
        };
        proof {
            assert(r@ =~= self@);
        }
        r
    }
}

/// One edge of a connection: the encoded cursor of the item at the same
/// position of the page.
pub struct Edge {
    pub cursor: Vec<u8>,
}

impl View for Edge {
    type V = Seq<u8>;

    open spec fn view(&self) -> Seq<u8> {
        self.cursor@
    }
}

impl DeepView for Edge {
    type V = Seq<u8>;

    open spec fn deep_view(&self) -> Seq<u8> {
        self.cursor@
    }
}

impl Clone for Edge {
    fn clone(&self) -> (r: Self)
        ensures
            r@ == self@,
    {
        Edge { cursor: copy_bytes(&self.cursor) }
    }
}

/// Mathematical view of [`SampleConnection`].
#[verifier::ext_equal]
pub struct ConnectionV {
    pub page_info: PageInfoV,
    pub edges: Seq<Seq<u8>>,
    pub items: Seq<SampleV>,
    pub total_count: usize,
}

/// A page of results: the items, a parallel sequence of edges, the
/// pagination metadata, and the count of all matching items independent
/// of the pagination bounds.
pub struct SampleConnection {
    pub page_info: PageInfo,
    pub edges: Vec<Edge>,
    pub items: Vec<Sample>,
    pub total_count: usize,
}

impl View for SampleConnection {
    type V = ConnectionV;

    open spec fn view(&self) -> ConnectionV {
        ConnectionV {
            page_info: self.page_info@,
            edges: self.edges.deep_view(),
            items: self.items.deep_view(),
            total_count: self.total_count,
        }
    }
}

impl DeepView for SampleConnection {
    type V = ConnectionV;

    open spec fn deep_view(&self) -> ConnectionV {
        self.view()
    }
}

/// Clones a vector of samples.
pub fn clone_samples(v: &Vec<Sample>) -> (r: Vec<Sample>)
    ensures
        r.deep_view() == v.deep_view(),
{
    let mut r: Vec<Sample> = Vec::new();
    let mut i: usize = 0;
    while i < v.len()
        invariant
            0 <= i <= v@.len(),
            r@.len() == i,
            forall|k: int| 0 <= k < i ==> (#[trigger] r@[k])@ == v@[k]@,
        decreases v@.len() - i,
    {
        r.push(v[i].clone());
        i = i + 1;
    }
    proof {
        assert forall|k: int| 0 <= k < v@.len() implies r.deep_view()[k] == v.deep_view()[k] by {
            assert(r@[k]@ == v@[k]@);
        }
        assert(r.deep_view() =~= v.deep_view());
    }
    r
}

/// Clones a vector of edges.
pub fn clone_edges(v: &Vec<Edge>) -> (r: Vec<Edge>)
    ensures
        r.deep_view() == v.deep_view(),
{
    let mut r: Vec<Edge> = Vec::new();
    let mut i: usize = 0;
    while i < v.len()
        invariant
            0 <= i <= v@.len(),
            r@.len() == i,
            forall|k: int| 0 <= k < i ==> (#[trigger] r@[k])@ == v@[k]@,
        decreases v@.len() - i,
    {
        r.push(v[i].clone());
        i = i + 1;
    }
    proof {
        assert forall|k: int| 0 <= k < v@.len() implies r.deep_view()[k] == v.deep_view()[k] by {
            assert(r@[k]@ == v@[k]@);
        }
        assert(r.deep_view() =~= v.deep_view());
    }
    r
}

impl Clone for SampleConnection {
    fn clone(&self) -> (r: Self)
        ensures
            r@ == self@,
    {
        let r = SampleConnection {
            page_info: self.page_info.clone(),
            edges: clone_edges(&self.edges),
            items: clone_samples(&self.items),
            total_count: self.total_count,
        };
        proof {
            assert(r@ =~= self@);
        }
        r
    }
}

impl SampleConnection {
    /// The pagination metadata.
    pub fn page_info(&self) -> (r: &PageInfo)
        ensures
            r@ == self@.page_info,
    {
        &self.page_info
    }

    /// The edges, parallel to the items.
    pub fn edges(&self) -> (r: &Vec<Edge>)
        ensures
            r.deep_view() == self@.edges,
    {
        &self.edges
    }

    /// The items of the page.
    pub fn items(&self) -> (r: &Vec<Sample>)
        ensures
            r.deep_view() == self@.items,
    {
        &self.items
    }

    /// How many items match the filter, independent of the pagination
    /// bounds.
    pub fn total_count(&self) -> (r: usize)
        ensures
            r == self@.total_count,
    {
        self.total_count
    }
}

/// The view of an optional cursor.
pub open spec fn opt_cursor_view(o: Option<Cursor>) -> Option<CursorV> {
    match o {
        Some(c) => Some(c@),
        None => None,
    }
}

/// The view of an optional page size.
pub open spec fn opt_limit_view(o: Option<usize>) -> Option<int> {
    match o {
        Some(l) => Some(l as int),
        None => None,
    }
}

/// The connection that a paged read of the ordered, filtered set `S`
/// returns.
pub open spec fn connection_spec(
    S: Seq<SampleV>,
    after: Option<CursorV>,
    before: Option<CursorV>,
    skip: int,
    limit: Option<int>,
) -> ConnectionV {
    let lo = page_lo(S, after, before, skip);
    let hi = page_hi(S, after, before, skip, limit);
    ConnectionV {
        page_info: PageInfoV {
            has_next_page: hi < S.len(),
            has_previous_page: lo > 0,
            start_cursor: if lo < hi {
                Some(cursor_rep(cursor_of(S[lo])))
            } else {
                None
            },
            next_cursor: if lo < hi {
                Some(cursor_rep(cursor_of(S[hi - 1])))
            } else {
                None
            },
        },
        edges: Seq::new((hi - lo) as nat, |i: int| cursor_rep(cursor_of(S[lo + i]))),
        items: S.subrange(lo, hi),
        total_count: S.len() as usize,
    }
}

/// The start of the cursor window over `items`.
fn find_window_lo(items: &Vec<Sample>, after: &Option<Cursor>) -> (r: usize)
    ensures
        r == window_lo(items.deep_view(), opt_cursor_view(*after)),
        r <= items.deep_view().len(),
{
    let ghost S = items.deep_view();
    let n = items.len();
    match after {
        None => 0,
        Some(c) => {
            let mut i: usize = 0;
            while i < n && !check_after_cursor(c, &items[i])
                invariant
                    0 <= i <= n,
                    n == S.len(),
                    S == items.deep_view(),
                    forall|j: int| 0 <= j < i ==> !after_cursor(c@, #[trigger] S[j]),
                decreases n - i,
            {
                i = i + 1;
            }
            proof {
                lemma_first_after_found(S, c@, i as int);
            }
            i
        },
    }
}

/// The end of the cursor window over `items`.
fn find_window_hi(items: &Vec<Sample>, before: &Option<Cursor>) -> (r: usize)
    ensures
        r == window_hi(items.deep_view(), opt_cursor_view(*before)),
        r <= items.deep_view().len(),
{
    let ghost S = items.deep_view();
    let n = items.len();
    match before {
        None => n,
        Some(c) => {
            let mut i: usize = 0;
            while i < n && check_before_cursor(&items[i], c)
                invariant
                    0 <= i <= n,
                    n == S.len(),
                    S == items.deep_view(),
                    forall|j: int| 0 <= j < i ==> before_cursor(#[trigger] S[j], c@),
                decreases n - i,
            {
                i = i + 1;
            }
            proof {
                lemma_first_not_before_found(S, c@, i as int);
            }
            i
        },
    }
}

/// The encoded cursor of the item at `idx`.
fn cursor_at(items: &Vec<Sample>, idx: usize) -> (r: Vec<u8>)
    requires
        idx < items.deep_view().len(),
    ensures
        r@ == cursor_rep(cursor_of(items.deep_view()[idx as int])),
{
    let item = &items[idx];
    let cur = Cursor { created: item.node.date_created, id: item.id.clone() };
    proof {
        assert(cur@ =~= cursor_of(items.deep_view()[idx as int]));
    }
    encode_cursor(&cur)
}

/// The items of the page `[lo, hi)`, cloned out of `items`.
fn collect_items(items: &Vec<Sample>, lo: usize, hi: usize) -> (r: Vec<Sample>)
    requires
        lo <= hi <= items.deep_view().len(),
    ensures
        r.deep_view() == items.deep_view().subrange(lo as int, hi as int),
{
    let ghost S = items.deep_view();
    let mut out: Vec<Sample> = Vec::new();
    let mut idx: usize = lo;
    while idx < hi
        invariant
            lo <= idx <= hi,
            hi <= S.len(),
            S == items.deep_view(),
            out@.len() == idx - lo,
            forall|k: int| 0 <= k < idx - lo ==> (#[trigger] out@[k])@ == S[lo + k],
        decreases hi - idx,
    {
        out.push(items[idx].clone());
        idx = idx + 1;
    }
    proof {
        assert forall|k: int|
            0 <= k < hi - lo implies out.deep_view()[k] == S.subrange(lo as int, hi as int)[k] by {
            assert(out@[k]@ == S[lo + k]);
        }
        assert(out.deep_view() =~= S.subrange(lo as int, hi as int));
    }
    out
}

/// The edges of the page `[lo, hi)`.
fn collect_edges(items: &Vec<Sample>, lo: usize, hi: usize) -> (r: Vec<Edge>)
    requires
        lo <= hi <= items.deep_view().len(),
    ensures
        r.deep_view() == Seq::new(
            (hi - lo) as nat,
            |i: int| cursor_rep(cursor_of(items.deep_view()[lo + i])),
        ),
{
    let ghost S = items.deep_view();
    let mut out: Vec<Edge> = Vec::new();
    let mut idx: usize = lo;
    while idx < hi
        invariant
            lo <= idx <= hi,
            hi <= S.len(),
            S == items.deep_view(),
            out@.len() == idx - lo,
            forall|k: int|
                0 <= k < idx - lo ==> (#[trigger] out@[k])@ == cursor_rep(cursor_of(S[lo + k])),
        decreases hi - idx,
    {
        out.push(Edge { cursor: cursor_at(items, idx) });
        idx = idx + 1;
    }
    proof {
        let goal = Seq::new((hi - lo) as nat, |i: int| cursor_rep(cursor_of(S[lo + i])));
        assert forall|k: int| 0 <= k < hi - lo implies out.deep_view()[k] == goal[k] by {
            assert(out@[k]@ == cursor_rep(cursor_of(S[lo + k])));
        }
        assert(out.deep_view() =~= goal);
    }
    out
}


/// A connection's edges run parallel to its items, the page never
/// exceeds the selection, and the total count is the whole selection's
/// size, independent of the page bounds.
pub proof fn lemma_connection_shape(
    S: Seq<SampleV>,
    after: Option<CursorV>,
    before: Option<CursorV>,
    skip: int,
    limit: Option<int>,
)
    requires
        skip >= 0,
        limit matches Some(l) ==> l >= 0,
        S.len() <= usize::MAX,
    ensures
        ({
            let c = connection_spec(S, after, before, skip, limit);
            &&& c.items.len() == c.edges.len()
            &&& c.items.len() <= S.len()
            &&& c.total_count == S.len()
        }),
{
    match after {
        Some(c) => lemma_first_after_bounds(S, c),
        None => {},
    }
    match before {
        Some(c) => lemma_first_not_before_bounds(S, c),
        None => {},
    }
    let lo = page_lo(S, after, before, skip);
    let hi = page_hi(S, after, before, skip, limit);
    assert(0 <= window_lo(S, after));
    assert(0 <= window_hi(S, before) <= S.len());
    assert(0 <= lo <= window_hi(S, before));
    assert(lo <= hi <= S.len());
    assert(connection_spec(S, after, before, skip, limit).items.len() == hi - lo);
    assert(connection_spec(S, after, before, skip, limit).edges.len() == hi - lo);
}

/// Builds the connection for one page over the ordered, filtered set
/// `items`.
pub fn build_connection(
    items: &Vec<Sample>,
    after: &Option<Cursor>,
    before: &Option<Cursor>,
    skip: usize,
    limit: &Option<usize>,
) -> (c: SampleConnection)
    ensures
        c@ == connection_spec(
            items.deep_view(),
            opt_cursor_view(*after),
            opt_cursor_view(*before),
            skip as int,
            opt_limit_view(*limit),
        ),
{
    let ghost S = items.deep_view();
    let ghost after_v = opt_cursor_view(*after);
    let ghost before_v = opt_cursor_view(*before);
    let ghost limit_v = opt_limit_view(*limit);
    let n = items.len();
    proof {
        assert(S.len() == n);
    }

    let lo0 = find_window_lo(items, after);
    let hi0 = find_window_hi(items, before);
    let base: usize = if lo0 > hi0 {
        hi0
    } else {
        lo0
    };
    let lo: usize = if skip >= hi0 - base {
        hi0
    } else {
        base + skip
    };
    let hi: usize = match limit {
        None => hi0,
        Some(l) => if *l >= hi0 - lo {
            hi0
        } else {
            lo + *l
        },
    };
    proof {
        assert(lo == page_lo(S, after_v, before_v, skip as int));
        assert(hi == page_hi(S, after_v, before_v, skip as int, limit_v));
    }

    let out_items = collect_items(items, lo, hi);
    let out_edges = collect_edges(items, lo, hi);
    let start_cursor: Option<Vec<u8>> = if lo < hi {
        Some(cursor_at(items, lo))
    } else {
        None
    };
    let next_cursor: Option<Vec<u8>> = if lo < hi {
        Some(cursor_at(items, hi - 1))
    } else {
        None
    };

    let c = SampleConnection {
        page_info: PageInfo {
            has_next_page: hi < n,
            has_previous_page: lo > 0,
            start_cursor,
            next_cursor,
        },
        edges: out_edges,
        items: out_items,
        total_count: n,
    };
    proof {
        let goal = connection_spec(S, after_v, before_v, skip as int, limit_v);
        assert(c@.page_info =~= goal.page_info);
        assert(c@ =~= goal);
    }
    c
}

// ---------------------------------------------------------------------------
// Reconstruction by successive `after`-cursor pages
// ---------------------------------------------------------------------------

/// The strict order is asymmetric.
pub proof fn lemma_sample_lt_asym(a: SampleV, b: SampleV)
    requires
        sample_lt(a, b),
    ensures
        !sample_lt(b, a),
{
    if a.node.created == b.node.created && lex_lt(a.id, b.id) {
        lemma_lex_lt_asym(a.id, b.id);
    }
}

/// Nothing is strictly ordered before itself.
pub proof fn lemma_sample_lt_irrefl(a: SampleV)
    ensures
        !sample_lt(a, a),
{
    if lex_lt(a.id, a.id) {
        lemma_lex_lt_asym(a.id, a.id);
    }
}

/// In a sorted set with distinct identifiers, the window after the
/// cursor of the item at `i` starts right behind it.
pub proof fn lemma_first_after_at(S: Seq<SampleV>, i: int)
    requires
        sorted_samples(S),
        unique_sample_ids(S),
        0 <= i < S.len(),
    ensures
        first_after(S, cursor_of(S[i])) == i + 1,
{
    let c = cursor_of(S[i]);
    assert forall|j: int| 0 <= j < i + 1 implies !after_cursor(c, #[trigger] S[j]) by {
        lemma_after_cursor_is_lt(S[i], S[j]);
        if j < i {
            assert(sample_le(S[j], S[i]));
            assert(S[j].id != S[i].id);
            if sample_lt(S[i], S[j]) {
                if sample_lt(S[j], S[i]) {
                    lemma_sample_lt_asym(S[j], S[i]);
                }
            }
        } else {
            lemma_sample_lt_irrefl(S[i]);
        }
    }
    if i + 1 < S.len() {
        assert(sample_le(S[i], S[i + 1]));
        assert(S[i].id != S[i + 1].id);
        assert(sample_lt(S[i], S[i + 1]));
        lemma_after_cursor_is_lt(S[i], S[i + 1]);
    }
    lemma_first_after_found(S, c, i + 1);
}

/// The items of one `after`-cursor page of size `p`: no `before` bound,
/// no offset.
pub open spec fn page_items(S: Seq<SampleV>, after: Option<CursorV>, p: int) -> Seq<SampleV> {
    connection_spec(S, after, None, 0, Some(p)).items
}

/// The page that follows what has already been delivered: the first page
/// when nothing has, and otherwise the page after the cursor of the last
/// delivered item.
pub open spec fn next_page(S: Seq<SampleV>, delivered: Seq<SampleV>, p: int) -> Seq<SampleV> {
    if delivered.len() == 0 {
        page_items(S, None, p)
    } else {
        page_items(S, Some(cursor_of(delivered.last())), p)
    }
}

/// Everything the first `k` successive `after`-cursor pages of size `p`
/// deliver, concatenated in order.
pub open spec fn chained_pages(S: Seq<SampleV>, p: int, k: nat) -> Seq<SampleV>
    decreases k,
{
    if k == 0 {
        Seq::empty()
    } else {
        let prev = chained_pages(S, p, (k - 1) as nat);
        prev + next_page(S, prev, p)
    }
}

/// Concatenating successive `after`-cursor pages of a fixed size `p >= 1`
/// over a static ordered set with distinct identifiers reconstructs the
/// set in order, with no duplicate and no missing item: after `k` pages
/// exactly the first `min(k * p, len)` items have been delivered, and
/// once `k * p` reaches the length the delivery is the whole set.
pub proof fn lemma_after_pages_reconstruct(S: Seq<SampleV>, p: int, k: nat)
    requires
        sorted_samples(S),
        unique_sample_ids(S),
        p >= 1,
    ensures
        chained_pages(S, p, k) == S.take(int_min(k * p, S.len() as int)),
        k * p >= S.len() ==> chained_pages(S, p, k) == S,
    decreases k,
{
    let len = S.len() as int;
    if k == 0 {
        assert(chained_pages(S, p, 0) =~= S.take(0));
        if 0 >= len {
            assert(S.take(0) =~= S);
        }
    } else {
        let kp = (k - 1) as nat;
        lemma_after_pages_reconstruct(S, p, kp);
        let prev = chained_pages(S, p, kp);
        let d = int_min(kp as int * p, len);
        assert(prev == S.take(d));
        assert(prev.len() == d);
        assert(k as int * p == kp as int * p + p) by (nonlinear_arith)
            requires
                kp as int == k as int - 1,
        ;
        let page = next_page(S, prev, p);
        if d == 0 {
            assert(prev.len() == 0);
            assert(page == page_items(S, None, p));
            assert(page_lo(S, None, None, 0) == 0);
            assert(page_hi(S, None, None, 0, Some(p)) == int_min(p, len));
            assert(page == S.subrange(0, int_min(p, len)));
            assert(chained_pages(S, p, k) =~= S.subrange(0, int_min(p, len)));
            assert(S.subrange(0, int_min(p, len)) =~= S.take(int_min(p, len)));
            if len == 0 {
                assert(chained_pages(S, p, k) =~= S.take(int_min(k as int * p, len)));
            } else {
                assert(kp as int * p == 0);
                assert(kp as int == 0) by (nonlinear_arith)
                    requires
                        kp as int * p == 0,
                        p >= 1,
                        kp as int >= 0,
                ;
                assert(int_min(k as int * p, len) == int_min(p, len));
            }
        } else {
            assert(prev.len() > 0);
            assert(prev.last() == S[d - 1]);
            lemma_first_after_at(S, d - 1);
            let c = cursor_of(S[d - 1]);
            assert(page == page_items(S, Some(c), p));
            assert(window_lo(S, Some(c)) == d);
            assert(page_lo(S, Some(c), None, 0) == d);
            assert(page_hi(S, Some(c), None, 0, Some(p)) == int_min(d + p, len));
            assert(page == S.subrange(d, int_min(d + p, len)));
            assert(chained_pages(S, p, k) =~= S.take(int_min(d + p, len)));
            if d == len {
                assert(int_min(d + p, len) == len);
                assert(int_min(k as int * p, len) == len) by {
                    assert(kp as int * p >= d) by (nonlinear_arith)
                        requires
                            d == int_min(kp as int * p, len),
                    ;
                }
            } else {
                assert(d == kp as int * p);
                assert(int_min(d + p, len) == int_min(k as int * p, len));
            }
        }
        if k as int * p >= len {
            assert(int_min(k as int * p, len) == len);
            assert(S.take(len) =~= S);
        }
    }
}

/// Strict order followed by non-strict order is strict.
pub proof fn lemma_sample_lt_le_trans(a: SampleV, b: SampleV, c: SampleV)
    requires
        sample_lt(a, b),
        sample_le(b, c),
    ensures
        sample_lt(a, c),
{
    if sample_lt(b, c) {
        if a.node.created == b.node.created && b.node.created == c.node.created {
            lemma_lex_lt_trans(a.id, b.id, c.id);
        }
    }
}

} // verus!
