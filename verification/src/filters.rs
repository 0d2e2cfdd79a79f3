use vstd::prelude::*;
use vstd::string::StringExecFns;

use crate::models::{Sample, SampleV, Status};

verus! {

// ---------------------------------------------------------------------------
// Status windows
// ---------------------------------------------------------------------------

/// Whether `date` is present and strictly in the past at `now`.
pub open spec fn date_past(date: Option<i64>, now: u64) -> bool {
    date matches Some(d) && d < now
}

/// Whether `date` is present and strictly in the future at `now`.
pub open spec fn date_future(date: Option<i64>, now: u64) -> bool {
    date matches Some(d) && d > now
}

/// The status window: which samples a status selects at time `now`,
/// judged from their availability and expiration dates.
///
/// `Active` asks for `now` strictly between the two dates, `Expired` for
/// an expiration strictly past, `Pending` for an availability strictly
/// future, `Available` for an availability strictly past regardless of
/// expiration, and `All` for no filtering. A comparison against an
/// absent date never holds.
pub open spec fn status_matches(
    status: Status,
    available: Option<i64>,
    expiration: Option<i64>,
    now: u64,
) -> bool {
    match status {
        Status::All => true,
        Status::Active => date_past(available, now) && date_future(expiration, now),
        Status::Expired => date_past(expiration, now),
        Status::Pending => date_future(available, now),
        Status::Available => date_past(available, now),
    }
}

/// Decides `date_past` on machine integers.
pub fn check_date_past(date: &Option<i64>, now: u64) -> (r: bool)
    ensures
        r == date_past(*date, now),
{
    match date {
        Some(d) => *d < 0 || (*d as u64) < now,
        None => false,
    }
}

/// Decides `date_future` on machine integers.
pub fn check_date_future(date: &Option<i64>, now: u64) -> (r: bool)
    ensures
        r == date_future(*date, now),
{
    match date {
        Some(d) => *d > 0 && (*d as u64) > now,
        None => false,
    }
}

/// Decides the status window for one sample.
pub fn check_status(status: Status, s: &Sample, now: u64) -> (r: bool)
    ensures
        r == status_matches(status, s@.available_date, s@.expiration_date, now),
{
    match status {
        Status::All => true,
        Status::Active => check_date_past(&s.available_date, now) && check_date_future(
            &s.expiration_date,
            now,
        ),
        Status::Expired => check_date_past(&s.expiration_date, now),
        Status::Pending => check_date_future(&s.available_date, now),
        Status::Available => check_date_past(&s.available_date, now),
    }
}

// ---------------------------------------------------------------------------
// Substring search (for the search query)
// ---------------------------------------------------------------------------

/// Whether `needle` occurs contiguously inside `hay`.
pub open spec fn bytes_contain(hay: Seq<u8>, needle: Seq<u8>) -> bool {
    exists|k: int|
        0 <= k <= hay.len() - needle.len() && (#[trigger] hay.subrange(k, k + needle.len()))
            == needle
}

/// Decides `bytes_contain` by scanning every offset.
pub fn slice_contains(hay: &[u8], needle: &[u8]) -> (r: bool)
    ensures
        r == bytes_contain(hay@, needle@),
{
    if needle.len() > hay.len() {
        return false;
    }
    if needle.len() == 0 {
        proof {
            assert(hay@.subrange(0, 0 + needle@.len() as int) =~= needle@);
        }
        return true;
    }
    let last_start: usize = hay.len() - needle.len();
    let mut k: usize = 0;
    while k <= last_start
        invariant
            0 <= k <= last_start + 1,
            last_start == hay@.len() - needle@.len(),
            1 <= needle@.len() <= hay@.len(),
            hay@.len() <= usize::MAX,
            forall|kk: int|
                0 <= kk < k ==> (#[trigger] hay@.subrange(kk, kk + needle@.len())) != needle@,
        decreases last_start + 1 - k,
    {
        let mut j: usize = 0;
        let mut hit: bool = true;
        while hit && j < needle.len()
            invariant
                0 <= j <= needle@.len(),
                k + needle@.len() <= hay@.len(),
                hay@.len() <= usize::MAX,
                hit ==> forall|jj: int| 0 <= jj < j ==> hay@[k + jj] == needle@[jj],
                !hit ==> j < needle@.len() && hay@[k + j] != needle@[j as int],
            decreases needle@.len() - j + (if hit {
                1int
            } else {
                0int
            }),
        {
            if hay[k + j] != needle[j] {
                hit = false;
            } else {
                j = j + 1;
            }
        }
        if hit {
            proof {
                assert forall|jj: int|
                    0 <= jj < needle@.len() implies hay@.subrange(k as int, k + needle@.len())[jj]
                    == needle@[jj] by {
                    assert(hay@.subrange(k as int, k + needle@.len())[jj] == hay@[k + jj]);
                }
                assert(hay@.subrange(k as int, k + needle@.len()) =~= needle@);
            }
            return true;
        }
        proof {
            assert(hay@.subrange(k as int, k + needle@.len())[j as int] == hay@[k + j]);
        }
        k = k + 1;
    }
    false
}

// ---------------------------------------------------------------------------
// Filters
// ---------------------------------------------------------------------------

/// Mathematical view of [`Filter`].
pub enum FilterV {
    All,
    ByStatus { status: Status, now: u64 },
    ByNames { names: Seq<Seq<char>>, status: Status, now: u64 },
    Search { term: Seq<char>, fields: Seq<Seq<char>> },
}

/// The query specification a read resolver hands to the store: which
/// samples the operation selects.
///
/// A filter is pure data; the clock it compares against is captured when
/// the filter is built, never read implicitly.
pub enum Filter {
    All,
    ByStatus { status: Status, now: u64 },
    ByNames { names: Vec<String>, status: Status, now: u64 },
    Search { term: String, fields: Vec<String> },
}

impl View for Filter {
    type V = FilterV;

    open spec fn view(&self) -> FilterV {
        match self {
            Filter::All => FilterV::All,
            Filter::ByStatus { status, now } => FilterV::ByStatus { status: *status, now: *now },
            Filter::ByNames { names, status, now } => FilterV::ByNames {
                names: names.deep_view(),
                status: *status,
                now: *now,
            },
            Filter::Search { term, fields } => FilterV::Search {
                term: term@,
                fields: fields.deep_view(),
            },
        }
    }
}

/// The text of the field of `s` that `field` names: `name` and
/// `description` can be searched, other names select nothing.
pub open spec fn field_text(s: SampleV, field: Seq<char>) -> Option<Seq<char>> {
    if field == "name"@ {
        Some(s.name)
    } else if field == "description"@ {
        s.description
    } else {
        None
    }
}

/// Whether the search `term` occurs (byte-wise) in the field of `s` that
/// `field` names.
pub open spec fn field_contains(s: SampleV, field: Seq<char>, term: Seq<char>) -> bool {
    field_text(s, field) matches Some(t) && bytes_contain(
        vstd::utf8::encode_utf8(t),
        vstd::utf8::encode_utf8(term),
    )
}

/// Whether `name` occurs in `names`.
pub open spec fn name_in(names: Seq<Seq<char>>, name: Seq<char>) -> bool {
    exists|i: int| 0 <= i < names.len() && (#[trigger] names[i]) == name
}

/// Whether the search `term` occurs in one of the named fields of `s`.
pub open spec fn some_field_contains(s: SampleV, fields: Seq<Seq<char>>, term: Seq<char>) -> bool {
    exists|i: int| 0 <= i < fields.len() && field_contains(s, #[trigger] fields[i], term)
}

/// Which samples a filter selects.
pub open spec fn filter_matches(f: FilterV, s: SampleV) -> bool {
    match f {
        FilterV::All => true,
        FilterV::ByStatus { status, now } => status_matches(
            status,
            s.available_date,
            s.expiration_date,
            now,
        ),
        FilterV::ByNames { names, status, now } => name_in(names, s.name) && status_matches(
            status,
            s.available_date,
            s.expiration_date,
            now,
        ),
        FilterV::Search { term, fields } => some_field_contains(s, fields, term),
    }
}

/// Builds the filter of a status query: a present status selects its
/// window at `now`, an absent status (like `All`) selects everything.
pub fn build_status_filter(status: Option<Status>, now: u64) -> (r: Filter)
    ensures
        r@ == match status {
            Some(s) => FilterV::ByStatus { status: s, now },
            None => FilterV::All,
        },
{
    match status {
        Some(s) => Filter::ByStatus { status: s, now },
        None => Filter::All,
    }
}

/// Decides whether one sample passes a filter.
pub fn sample_matches(f: &Filter, s: &Sample) -> (r: bool)
    ensures
        r == filter_matches(f@, s@),
{
    match f {
        Filter::All => true,
        Filter::ByStatus { status, now } => check_status(*status, s, *now),
        Filter::ByNames { names, status, now } => {
            let ok_status = check_status(*status, s, *now);
            let ok_name = name_in_list(names, &s.name);
            ok_status && ok_name
        },
        Filter::Search { term, fields } => any_field_contains(s, fields, term),
    }
}

/// Whether `name` occurs in `names`.
fn name_in_list(names: &Vec<String>, name: &String) -> (r: bool)
    ensures
        r == name_in(names.deep_view(), name@),
{
    let mut i: usize = 0;
    while i < names.len()
        invariant
            0 <= i <= names@.len(),
            forall|j: int| 0 <= j < i ==> (#[trigger] names.deep_view()[j]) != name@,
        decreases names@.len() - i,
    {
        if names[i] == *name {
            proof {
                assert(names.deep_view()[i as int] == name@);
            }
            return true;
        }
        i = i + 1;
    }
    false
}

/// Whether the search `term` occurs in any of the named fields of `s`.
fn any_field_contains(s: &Sample, fields: &Vec<String>, term: &String) -> (r: bool)
    ensures
        r == some_field_contains(s@, fields.deep_view(), term@),
{
    let mut i: usize = 0;
    while i < fields.len()
        invariant
            0 <= i <= fields@.len(),
            forall|j: int|
                0 <= j < i ==> !field_contains(s@, #[trigger] fields.deep_view()[j], term@),
        decreases fields@.len() - i,
    {
        if field_matches(s, &fields[i], term) {
            proof {
                assert(field_contains(s@, fields.deep_view()[i as int], term@));
            }
            return true;
        }
        i = i + 1;
    }
    false
}

/// Decides whether the search `term` occurs in the field of `s` that
/// `field` names.
fn field_matches(s: &Sample, field: &String, term: &String) -> (r: bool)
    ensures
        r == field_contains(s@, field@, term@),
{
    let name_key = String::from_str("name");
    let description_key = String::from_str("description");
    if *field == name_key {
        slice_contains(s.name.as_str().as_bytes(), term.as_str().as_bytes())
    } else if *field == description_key {
        match &s.description {
            Some(d) => slice_contains(d.as_str().as_bytes(), term.as_str().as_bytes()),
            None => false,
        }
    } else {
        false
    }
}

/// Clones a vector of texts.
pub fn clone_strings(v: &Vec<String>) -> (r: Vec<String>)
    ensures
        r.deep_view() == v.deep_view(),
{
    let mut r: Vec<String> = Vec::new();
    let mut i: usize = 0;
    while i < v.len()
        invariant
            0 <= i <= v@.len(),
            r@.len() == i,
            forall|k: int| 0 <= k < i ==> (#[trigger] r@[k])@ == v@[k]@,
        decreases v@.len() - i,
    {
        r.push(v[i].clone());
        i = i + 1;
    }
    proof {
        assert forall|k: int| 0 <= k < v@.len() implies r.deep_view()[k] == v.deep_view()[k] by {
            assert(r@[k]@ == v@[k]@);
        }
        assert(r.deep_view() =~= v.deep_view());
    }
    r
}

} // verus!
