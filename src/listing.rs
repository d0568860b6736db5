//! Listing a crate's versions from a snapshot of the version store, newest
//! first by publication date or highest first by semantic version, one page
//! at a time.

use vstd::prelude::*;
use crate::pagination::{bad_cursor, cursor_of, ListError, Page, PaginationOptions};
use crate::version_order::{
    descending, is_permutation, lemma_sorted_order_permutation, sort_desc_by_semver, sorted_order, stable, versions_first, views,
};
use crate::seek::{encode_seek, encode_spec, tag_of, Date, Seek, SeekPayload, Semver};

verus! {

/// A version as the store holds it. `created_at` counts microseconds since
/// the Unix epoch.
#[derive(Debug, PartialEq, Eq)]
pub struct VersionRecord {
    pub id: i32,
    pub created_at: i64,
    pub num: String,
    pub crate_id: i32,
    pub publisher_id: Option<i32>,
}

impl VersionRecord {
    /// A copy of the record.
    pub fn duplicate(&self) -> (r: VersionRecord)
        ensures
            r == *self,
    {
        VersionRecord {
            id: self.id,
            created_at: self.created_at,
            num: self.num.clone(),
            crate_id: self.crate_id,
            publisher_id: self.publisher_id,
        }
    }
}

/// What accompanies a page: how many versions the crate has, and the cursor
/// of the page after it, if there may be one.
#[derive(Debug, PartialEq, Eq)]
pub struct ResponseMeta {
    pub total: u64,
    pub next_page: Option<String>,
}

/// One page of versions.
#[derive(Debug, PartialEq, Eq)]
pub struct PaginatedVersions {
    pub data: Vec<VersionRecord>,
    pub meta: ResponseMeta,
}

/// Number of the first `n` rows that belong to the crate.
pub open spec fn count_crate(rows: Seq<VersionRecord>, crate_id: i32, n: int) -> nat
    decreases n,
{
    if n <= 0 {
        0
    } else {
        count_crate(rows, crate_id, n - 1) + if rows[n - 1].crate_id == crate_id {
            1nat
        } else {
            0nat
        }
    }
}

/// Number of versions of the crate in the store.
pub open spec fn crate_total(rows: Seq<VersionRecord>, crate_id: i32) -> nat {
    count_crate(rows, crate_id, rows.len() as int)
}

/// Counts the versions of a crate.
pub fn count_versions(rows: &Vec<VersionRecord>, crate_id: i32) -> (r: u64)
    ensures
        r == crate_total(rows@, crate_id),
{
    let mut c: u64 = 0;
    let mut i: usize = 0;
    while i < rows.len()
        invariant
            i <= rows@.len(),
            c == count_crate(rows@, crate_id, i as int),
            c <= i,
        decreases rows@.len() - i,
    {
        if rows[i].crate_id == crate_id {
            c = c + 1;
        }
        i = i + 1;
    }
    c
}

/// `a` comes before `b` in date order: later creation, or the same creation
/// and a higher id.
pub open spec fn date_before(a: VersionRecord, b: VersionRecord) -> bool {
    a.created_at > b.created_at || (a.created_at == b.created_at && a.id > b.id)
}

/// The record comes strictly after the position `bound` in date order
/// (`None`: the top of the listing).
pub open spec fn after_bound(r: VersionRecord, bound: Option<(i64, i32)>) -> bool {
    match bound {
        None => true,
        Some((c, i)) => r.created_at < c || (r.created_at == c && r.id < i),
    }
}

/// Row `k` is a version of the crate after `bound`.
pub open spec fn date_candidate(
    rows: Seq<VersionRecord>,
    crate_id: i32,
    bound: Option<(i64, i32)>,
    k: int,
) -> bool {
    0 <= k < rows.len() && rows[k].crate_id == crate_id && after_bound(rows[k], bound)
}

/// `r` is the first version of the crate after `bound` in date order.
pub open spec fn is_next_by_date(
    rows: Seq<VersionRecord>,
    crate_id: i32,
    bound: Option<(i64, i32)>,
    r: VersionRecord,
) -> bool {
    &&& exists|k: int| date_candidate(rows, crate_id, bound, k) && rows[k] == r
    &&& forall|k: int| #[trigger]
        date_candidate(rows, crate_id, bound, k) ==> !date_before(rows[k], r)
}

/// No version of the crate comes after `bound`.
pub open spec fn exhausted_by_date(
    rows: Seq<VersionRecord>,
    crate_id: i32,
    bound: Option<(i64, i32)>,
) -> bool {
    forall|k: int| !#[trigger] date_candidate(rows, crate_id, bound, k)
}

pub open spec fn date_key(r: VersionRecord) -> Option<(i64, i32)> {
    Some((r.created_at, r.id))
}

/// The position after which entry `k` of a page is looked for.
pub open spec fn date_bound_at(
    start: Option<(i64, i32)>,
    page: Seq<VersionRecord>,
    k: int,
) -> Option<(i64, i32)> {
    if k == 0 {
        start
    } else {
        date_key(page[k - 1])
    }
}

/// Each entry of `page` is the first version of the crate after the one
/// before it (after `start`, for the first).
pub open spec fn date_chain(
    rows: Seq<VersionRecord>,
    crate_id: i32,
    start: Option<(i64, i32)>,
    page: Seq<VersionRecord>,
) -> bool {
    forall|k: int|
        0 <= k < page.len() ==> is_next_by_date(
            rows,
            crate_id,
            date_bound_at(start, page, k),
            #[trigger] page[k],
        )
}

/// Number of the first `n` rows that are versions of the crate after `bound`.
pub open spec fn count_after(
    rows: Seq<VersionRecord>,
    crate_id: i32,
    bound: Option<(i64, i32)>,
    n: int,
) -> nat
    decreases n,
{
    if n <= 0 {
        0
    } else {
        count_after(rows, crate_id, bound, n - 1) + if date_candidate(
            rows,
            crate_id,
            bound,
            n - 1,
        ) {
            1nat
        } else {
            0nat
        }
    }
}

proof fn lemma_count_after_shrinks(
    rows: Seq<VersionRecord>,
    crate_id: i32,
    b1: Option<(i64, i32)>,
    b2: Option<(i64, i32)>,
    j: int,
    n: int,
)
    requires
        0 <= n <= rows.len(),
        forall|k: int| date_candidate(rows, crate_id, b2, k) ==> date_candidate(rows, crate_id, b1, k),
    ensures
        count_after(rows, crate_id, b2, n) <= count_after(rows, crate_id, b1, n),
        0 <= j < n && date_candidate(rows, crate_id, b1, j) && !date_candidate(rows, crate_id, b2, j)
            ==> count_after(rows, crate_id, b2, n) < count_after(rows, crate_id, b1, n),
    decreases n,
{
    if n > 0 {
        lemma_count_after_shrinks(rows, crate_id, b1, b2, j, n - 1);
    }
}

/// The first version of the crate after `bound` in date order.
fn next_by_date(rows: &Vec<VersionRecord>, crate_id: i32, bound: Option<(i64, i32)>) -> (r: Option<
    usize,
>)
    ensures
        match r {
            Some(i) => date_candidate(rows@, crate_id, bound, i as int) && is_next_by_date(
                rows@,
                crate_id,
                bound,
                rows@[i as int],
            ),
            None => exhausted_by_date(rows@, crate_id, bound),
        },
{
    let mut best: Option<usize> = None;
    let mut i: usize = 0;
    while i < rows.len()
        invariant
            i <= rows@.len(),
            match best {
                Some(b) => b < i && date_candidate(rows@, crate_id, bound, b as int) && forall|
                    k: int,
                | 0 <= k < i && #[trigger] date_candidate(rows@, crate_id, bound, k) ==> !date_before(
                    rows@[k],
                    rows@[b as int],
                ),
                None => forall|k: int|
                    0 <= k < i ==> !#[trigger] date_candidate(rows@, crate_id, bound, k),
            },
        decreases rows@.len() - i,
    {
        let r = &rows[i];
        let after = match bound {
            None => true,
            Some((c, id)) => r.created_at < c || (r.created_at == c && r.id < id),
        };
        if r.crate_id == crate_id && after {
            match best {
                None => {
                    best = Some(i);
                },
                Some(b) => {
                    let rb = &rows[b];
                    if r.created_at > rb.created_at || (r.created_at == rb.created_at && r.id
                        > rb.id) {
                        best = Some(i);
                    }
                },
            }
        }
        i = i + 1;
    }
    match best {
        Some(b) => {
            assert(date_candidate(rows@, crate_id, bound, b as int) && rows@[b as int] == rows@[b as int]);
        },
        None => {},
    }
    best
}

impl Seek {
    /// The cursor that resumes a listing of this ordering after `record`.
    pub fn to_payload(&self, record: &VersionRecord) -> (r: SeekPayload)
        ensures
            r == seek_payload_for(*self, *record),
    {
        match self {
            Seek::Semver => SeekPayload::Semver(Semver { id: record.id }),
            Seek::Date => SeekPayload::Date(Date { created_at: record.created_at, id: record.id }),
        }
    }
}

pub open spec fn seek_payload_for(tag: Seek, record: VersionRecord) -> SeekPayload {
    match tag {
        Seek::Semver => SeekPayload::Semver(Semver { id: record.id }),
        Seek::Date => SeekPayload::Date(Date { created_at: record.created_at, id: record.id }),
    }
}

/// The cursor of the next page: there is one only when the page is full.
pub open spec fn next_page_spec(
    records: Seq<VersionRecord>,
    options: PaginationOptions,
    tag: Seek,
) -> Option<Seq<char>> {
    if options.page is Numeric || records.len() == 0 || records.len() < options.per_page {
        None
    } else {
        Some(encode_spec(seek_payload_for(tag, records.last())))
    }
}

/// The cursor text for the page after `records`, if it is full.
pub fn next_seek_params(records: &Vec<VersionRecord>, options: &PaginationOptions, tag: Seek) -> (r:
    Option<String>)
    ensures
        match r {
            Some(s) => next_page_spec(records@, *options, tag) == Some(s@),
            None => next_page_spec(records@, *options, tag) is None,
        },
{
    let numeric = match options.page {
        Page::Numeric(_) => true,
        _ => false,
    };
    if numeric || records.len() == 0 || records.len() < options.per_page as usize {
        return None;
    }
    let last = &records[records.len() - 1];
    let payload = tag.to_payload(last);
    Some(encode_seek(&payload))
}

/// Where a date listing starts: after the cursor of the options, if any.
pub open spec fn date_start(options: Option<PaginationOptions>) -> Option<(i64, i32)> {
    match options {
        Some(o) => match cursor_of(o.page, Seek::Date) {
            Some(SeekPayload::Date(d)) => Some((d.created_at, d.id)),
            _ => None,
        },
        None => None,
    }
}

/// Whether the options are refused, and with which error.
pub open spec fn options_error(options: Option<PaginationOptions>, tag: Seek) -> Option<ListError> {
    match options {
        Some(o) => if o.page is Numeric {
            Some(ListError::NumericPagingUnsupported)
        } else if o.per_page == 0 {
            Some(ListError::InvalidPerPage)
        } else if bad_cursor(o.page, tag) {
            Some(ListError::InvalidCursor)
        } else {
            None
        },
        None => None,
    }
}

/// The cursor of the next page, as a listing with these options reports it.
pub open spec fn next_page_of(
    data: Seq<VersionRecord>,
    options: Option<PaginationOptions>,
    tag: Seek,
) -> Option<Seq<char>> {
    match options {
        Some(o) => next_page_spec(data, o, tag),
        None => None,
    }
}

pub open spec fn opts_of(options: Option<&PaginationOptions>) -> Option<PaginationOptions> {
    match options {
        Some(o) => Some(*o),
        None => None,
    }
}

pub open spec fn opt_view(s: Option<String>) -> Option<Seq<char>> {
    match s {
        Some(t) => Some(t@),
        None => None,
    }
}

/// Checks the options of a listing and decodes their cursor.
fn start_of(options: Option<&PaginationOptions>, tag: Seek) -> (r: Result<
    Option<SeekPayload>,
    ListError,
>)
    ensures
        match options_error(opts_of(options), tag) {
            Some(e) => r == Err::<Option<SeekPayload>, ListError>(e),
            None => r matches Ok(c) && c == match options {
                Some(o) => cursor_of(o.page, tag),
                None => None,
            } && (c matches Some(p) ==> tag_of(p) == tag),
        },
{
    match options {
        None => Ok(None),
        Some(o) => {
            match o.page {
                Page::Numeric(_) => {
                    return Err(ListError::NumericPagingUnsupported);
                },
                _ => {},
            }
            if o.per_page == 0 {
                return Err(ListError::InvalidPerPage);
            }
            match tag.after(&o.page) {
                Ok(c) => Ok(c),
                Err(_) => Err(ListError::InvalidCursor),
            }
        },
    }
}

/// Versions of a crate, newest first: descending by creation time, then by
/// id. With options, one page of at most `per_page` versions that starts
/// after the cursor; without, all of them. `total` counts the crate's
/// versions, and is 0 for an empty page.
pub fn list_by_date(
    rows: &Vec<VersionRecord>,
    crate_id: i32,
    options: Option<&PaginationOptions>,
) -> (r: Result<PaginatedVersions, ListError>)
    ensures
        match options_error(opts_of(options), Seek::Date) {
            Some(e) => r == Err::<PaginatedVersions, ListError>(e),
            None => r is Ok,
        },
        r matches Ok(p) ==> {
            let opts = opts_of(options);
            let start = date_start(opts);
            &&& date_chain(rows@, crate_id, start, p.data@)
            &&& opts matches Some(o) ==> p.data@.len() <= o.per_page
            &&& (opts is None || p.data@.len() < opts.unwrap().per_page) ==> exhausted_by_date(
                rows@,
                crate_id,
                date_bound_at(start, p.data@, p.data@.len() as int),
            )
            &&& p.meta.total == if p.data@.len() == 0 {
                0
            } else {
                crate_total(rows@, crate_id)
            }
            &&& opt_view(p.meta.next_page) == next_page_of(p.data@, opts, Seek::Date)
        },
{
    let cursor = match start_of(options, Seek::Date) {
        Ok(c) => c,
        Err(e) => {
            return Err(e);
        },
    };
    let ghost opts = opts_of(options);
    let ghost start = date_start(opts);
    let mut bound: Option<(i64, i32)> = match cursor {
        Some(SeekPayload::Date(d)) => Some((d.created_at, d.id)),
        _ => None,
    };
    assert(bound == start);
    let (paged, limit) = match options {
        Some(o) => (true, o.per_page as usize),
        None => (false, 0usize),
    };
    let mut data: Vec<VersionRecord> = Vec::new();
    let mut done = false;
    while !done && (!paged || data.len() < limit)
        invariant
            date_chain(rows@, crate_id, start, data@),
            bound == date_bound_at(start, data@, data@.len() as int),
            done ==> exhausted_by_date(rows@, crate_id, bound),
            paged ==> data@.len() <= limit,
            paged == opts is Some,
            paged ==> limit == opts.unwrap().per_page,
        decreases count_after(rows@, crate_id, bound, rows@.len() as int) + if done {
            0int
        } else {
            1int
        },
    {
        match next_by_date(rows, crate_id, bound) {
            Some(i) => {
                let ghost old_data = data@;
                let ghost old_bound = bound;
                let rec = rows[i].duplicate();
                bound = Some((rec.created_at, rec.id));
                data.push(rec);
                proof {
                    assert(data@ == old_data.push(rows@[i as int]));
                    assert forall|k: int| 0 <= k < data@.len() implies is_next_by_date(
                        rows@,
                        crate_id,
                        date_bound_at(start, data@, k),
                        #[trigger] data@[k],
                    ) by {
                        if k < old_data.len() {
                            assert(data@[k] == old_data[k]);
                            assert(date_bound_at(start, data@, k) == date_bound_at(
                                start,
                                old_data,
                                k,
                            ));
                        }
                    }
                    assert forall|k: int| #[trigger]
                        date_candidate(rows@, crate_id, bound, k) implies date_candidate(
                        rows@,
                        crate_id,
                        old_bound,
                        k,
                    ) by {}
                    lemma_count_after_shrinks(
                        rows@,
                        crate_id,
                        old_bound,
                        bound,
                        i as int,
                        rows@.len() as int,
                    );
                }
            },
            None => {
                done = true;
            },
        }
    }
    let total = if data.len() == 0 {
        0
    } else {
        count_versions(rows, crate_id)
    };
    let next_page = match options {
        Some(o) => next_seek_params(&data, o, Seek::Date),
        None => None,
    };
    Ok(PaginatedVersions { data, meta: ResponseMeta { total, next_page } })
}

/// Positions, among the first `n` rows, of the crate's versions, in store
/// order.
pub open spec fn crate_positions(rows: Seq<VersionRecord>, crate_id: i32, n: int) -> Seq<usize>
    decreases n,
{
    if n <= 0 {
        Seq::empty()
    } else {
        let p = crate_positions(rows, crate_id, n - 1);
        if rows[n - 1].crate_id == crate_id {
            p.push((n - 1) as usize)
        } else {
            p
        }
    }
}

/// The version strings at the given positions.
pub open spec fn nums_at(rows: Seq<VersionRecord>, pos: Seq<usize>) -> Seq<Seq<char>> {
    pos.map_values(|i: usize| rows[i as int].num@)
}

/// `order` lists the positions of the crate's versions highest version
/// first: a stable sort of the store order, texts that are no version last.
pub open spec fn semver_order(rows: Seq<VersionRecord>, crate_id: i32, order: Seq<usize>) -> bool {
    let f = crate_positions(rows, crate_id, rows.len() as int);
    exists|perm: Seq<usize>|
        #[trigger] is_permutation(perm, f.len()) && descending(nums_at(rows, f), perm)
            && versions_first(nums_at(rows, f), perm) && stable(nums_at(rows, f), perm) && order
            =~= perm.map_values(|k: usize| f[k as int])
}

/// The positions of the crate's versions in the order of a semver listing.
pub open spec fn semver_listing(rows: Seq<VersionRecord>, crate_id: i32) -> Seq<usize> {
    let f = crate_positions(rows, crate_id, rows.len() as int);
    sorted_order(nums_at(rows, f), f.len() as int).map_values(|k: usize| f[k as int])
}

/// `k` is the first place of `order` that holds the version with that id.
pub open spec fn first_with_id(rows: Seq<VersionRecord>, order: Seq<usize>, id: i32, k: int) -> bool {
    &&& 0 <= k < order.len()
    &&& rows[order[k] as int].id == id
    &&& forall|j: int| 0 <= j < k ==> rows[order[j] as int].id != id
}

/// Where a semver page starts in `order`: at the top without a cursor, right
/// after the cursor's version otherwise; `None` when that version is unknown
/// or last.
pub open spec fn semver_start(
    rows: Seq<VersionRecord>,
    order: Seq<usize>,
    cursor: Option<SeekPayload>,
) -> Option<int> {
    match cursor {
        Some(SeekPayload::Semver(c)) => if exists|k: int| first_with_id(rows, order, c.id, k) {
            let k = choose|k: int| first_with_id(rows, order, c.id, k);
            if k + 1 < order.len() {
                Some(k + 1)
            } else {
                None
            }
        } else {
            None
        },
        _ => Some(0),
    }
}

/// `data` is the stretch `order[start..end]` of the rows.
pub open spec fn is_slice(
    rows: Seq<VersionRecord>,
    order: Seq<usize>,
    start: int,
    end: int,
    data: Seq<VersionRecord>,
) -> bool {
    &&& 0 <= start <= end <= order.len()
    &&& data.len() == end - start
    &&& forall|k: int| 0 <= k < data.len() ==> #[trigger] data[k] == rows[order[start + k] as int]
}

/// The page of a semver listing over `order`.
pub open spec fn semver_page(
    rows: Seq<VersionRecord>,
    order: Seq<usize>,
    options: Option<PaginationOptions>,
    data: Seq<VersionRecord>,
) -> bool {
    match options {
        None => is_slice(rows, order, 0, order.len() as int, data),
        Some(o) => match semver_start(rows, order, cursor_of(o.page, Seek::Semver)) {
            None => data.len() == 0,
            Some(s) => is_slice(
                rows,
                order,
                s,
                if s + o.per_page < order.len() {
                    s + o.per_page
                } else {
                    order.len() as int
                },
                data,
            ),
        },
    }
}

/// Versions of a crate, highest semantic version first, with texts that are
/// no version last and ties in store order. With options, the page of at most
/// `per_page` versions right after the cursor's version; without, all of
/// them. `total` counts the crate's versions.
pub fn list_by_semver(
    rows: &Vec<VersionRecord>,
    crate_id: i32,
    options: Option<&PaginationOptions>,
) -> (r: Result<PaginatedVersions, ListError>)
    ensures
        match options_error(opts_of(options), Seek::Semver) {
            Some(e) => r == Err::<PaginatedVersions, ListError>(e),
            None => r is Ok,
        },
        r matches Ok(p) ==> {
            let opts = opts_of(options);
            &&& semver_order(rows@, crate_id, semver_listing(rows@, crate_id))
            &&& semver_page(rows@, semver_listing(rows@, crate_id), opts, p.data@)
            &&& p.meta.total == crate_total(rows@, crate_id)
            &&& opt_view(p.meta.next_page) == next_page_of(p.data@, opts, Seek::Semver)
        },
{
    let cursor = match start_of(options, Seek::Semver) {
        Ok(c) => c,
        Err(e) => {
            return Err(e);
        },
    };
    let ghost opts = opts_of(options);
    // The crate's versions in store order, and their version strings.
    let mut f: Vec<usize> = Vec::new();
    let mut nums: Vec<String> = Vec::new();
    let mut i: usize = 0;
    while i < rows.len()
        invariant
            i <= rows@.len(),
            f@ == crate_positions(rows@, crate_id, i as int),
            f@.len() == count_crate(rows@, crate_id, i as int),
            nums@.len() == f@.len(),
            forall|k: int| 0 <= k < f@.len() ==> f@[k] < i,
            forall|k: int| 0 <= k < nums@.len() ==> #[trigger] nums@[k]@ == rows@[f@[k] as int].num@,
        decreases rows@.len() - i,
    {
        if rows[i].crate_id == crate_id {
            f.push(i);
            nums.push(rows[i].num.clone());
        }
        i = i + 1;
    }
    let ghost fs = f@;
    assert(views(nums@) =~= nums_at(rows@, fs));
    let perm = sort_desc_by_semver(&nums);
    let mut order: Vec<usize> = Vec::new();
    let mut k: usize = 0;
    while k < perm.len()
        invariant
            k <= perm@.len(),
            perm@.len() == fs.len(),
            f@ == fs,
            is_permutation(perm@, fs.len()),
            order@.len() == k,
            forall|j: int| 0 <= j < k ==> #[trigger] order@[j] == fs[perm@[j] as int],
            forall|j: int| 0 <= j < fs.len() ==> fs[j] < rows@.len(),
        decreases perm@.len() - k,
    {
        order.push(f[perm[k]]);
        k = k + 1;
    }
    let ghost ord = order@;
    assert(semver_order(rows@, crate_id, ord)) by {
        assert(ord =~= perm@.map_values(|k: usize| fs[k as int]));
        assert(is_permutation(perm@, fs.len()));
    }
    assert(ord =~= semver_listing(rows@, crate_id));
    let n = order.len();
    // Where the page starts and ends.
    let (start, end): (usize, usize) = match options {
        None => (0, n),
        Some(o) => {
            let begin: Option<usize> = match cursor {
                Some(SeekPayload::Semver(c)) => {
                    let mut j: usize = 0;
                    let mut found = false;
                    while j < n && !found
                        invariant
                            n == ord.len(),
                            order@ == ord,
                            j <= n,
                            forall|q: int| 0 <= q < ord.len() ==> ord[q] < rows@.len(),
                            forall|q: int| 0 <= q < j ==> rows@[ord[q] as int].id != c.id,
                            found ==> j < n && rows@[ord[j as int] as int].id == c.id,
                        decreases n - j + if found { 0int } else { 1int },
                    {
                        if rows[order[j]].id == c.id {
                            found = true;
                        } else {
                            j = j + 1;
                        }
                    }
                    proof {
                        if found {
                            assert(first_with_id(rows@, ord, c.id, j as int));
                            let q = choose|q: int| first_with_id(rows@, ord, c.id, q);
                            assert(q == j as int);
                        } else {
                            assert(!exists|q: int| first_with_id(rows@, ord, c.id, q));
                        }
                    }
                    if found && j + 1 < n {
                        Some(j + 1)
                    } else {
                        None
                    }
                },
                _ => Some(0),
            };
            match begin {
                None => (0, 0),
                Some(b) => {
                    let pp = o.per_page as usize;
                    let e = if pp < n - b {
                        b + pp
                    } else {
                        n
                    };
                    (b, e)
                },
            }
        },
    };
    let mut data: Vec<VersionRecord> = Vec::new();
    let mut q: usize = start;
    while q < end
        invariant
            start <= q <= end <= n,
            n == ord.len(),
            order@ == ord,
            forall|j: int| 0 <= j < ord.len() ==> ord[j] < rows@.len(),
            data@.len() == q - start,
            forall|j: int| 0 <= j < data@.len() ==> #[trigger] data@[j] == rows@[ord[start + j] as int],
        decreases end - q,
    {
        data.push(rows[order[q]].duplicate());
        q = q + 1;
    }
    assert(semver_page(rows@, ord, opts, data@));
    let next_page = match options {
        Some(o) => next_seek_params(&data, o, Seek::Semver),
        None => None,
    };
    assert(n == crate_total(rows@, crate_id));
    Ok(PaginatedVersions { data, meta: ResponseMeta { total: n as u64, next_page } })
}

/// Date listings are descending: each entry comes strictly before the next
/// in `(created_at, id)` order.
pub proof fn lemma_date_descending(
    rows: Seq<VersionRecord>,
    crate_id: i32,
    start: Option<(i64, i32)>,
    page: Seq<VersionRecord>,
)
    requires
        date_chain(rows, crate_id, start, page),
    ensures
        forall|k: int| 0 <= k < page.len() - 1 ==> date_before(#[trigger] page[k], page[k + 1]),
        forall|k1: int, k2: int|
            0 <= k1 < k2 < page.len() ==> date_before(#[trigger] page[k1], #[trigger] page[k2]),
{
    assert forall|k: int| 0 <= k < page.len() - 1 implies date_before(#[trigger] page[k], page[k + 1]) by {
        assert(is_next_by_date(rows, crate_id, date_bound_at(start, page, k + 1), page[k + 1]));
    }
    assert forall|k1: int, k2: int| 0 <= k1 < k2 < page.len() implies date_before(
        #[trigger] page[k1],
        #[trigger] page[k2],
    ) by {
        lemma_date_before_chain(page, k1, k2);
    }
}

proof fn lemma_date_before_chain(page: Seq<VersionRecord>, k1: int, k2: int)
    requires
        0 <= k1 < k2 < page.len(),
        forall|k: int| 0 <= k < page.len() - 1 ==> date_before(#[trigger] page[k], page[k + 1]),
    ensures
        date_before(page[k1], page[k2]),
    decreases k2 - k1,
{
    if k2 > k1 + 1 {
        lemma_date_before_chain(page, k1, k2 - 1);
        assert(date_before(page[k2 - 1], page[k2]));
    }
}

/// A page followed by the page that resumes after its last entry is the
/// listing of both pages at once.
pub proof fn lemma_date_pages_concat(
    rows: Seq<VersionRecord>,
    crate_id: i32,
    start: Option<(i64, i32)>,
    first: Seq<VersionRecord>,
    second: Seq<VersionRecord>,
)
    requires
        date_chain(rows, crate_id, start, first),
        date_chain(rows, crate_id, date_bound_at(start, first, first.len() as int), second),
    ensures
        date_chain(rows, crate_id, start, first + second),
{
    let all = first + second;
    assert forall|k: int| 0 <= k < all.len() implies is_next_by_date(
        rows,
        crate_id,
        date_bound_at(start, all, k),
        #[trigger] all[k],
    ) by {
        if k < first.len() {
            assert(all[k] == first[k]);
            assert(date_bound_at(start, all, k) == date_bound_at(start, first, k));
        } else {
            let j = k - first.len();
            assert(all[k] == second[j]);
            assert(is_next_by_date(
                rows,
                crate_id,
                date_bound_at(date_bound_at(start, first, first.len() as int), second, j),
                second[j],
            ));
            if j > 0 {
                assert(all[k - 1] == second[j - 1]);
            }
        }
    }
}

proof fn lemma_chain_take(
    rows: Seq<VersionRecord>,
    crate_id: i32,
    start: Option<(i64, i32)>,
    a: Seq<VersionRecord>,
    n: int,
)
    requires
        date_chain(rows, crate_id, start, a),
        0 <= n <= a.len(),
    ensures
        date_chain(rows, crate_id, start, a.take(n)),
{
    let t = a.take(n);
    assert forall|k: int| 0 <= k < t.len() implies is_next_by_date(
        rows,
        crate_id,
        date_bound_at(start, t, k),
        #[trigger] t[k],
    ) by {
        assert(t[k] == a[k]);
        assert(date_bound_at(start, t, k) == date_bound_at(start, a, k));
    }
}

proof fn lemma_next_unique(
    rows: Seq<VersionRecord>,
    crate_id: i32,
    bound: Option<(i64, i32)>,
    x: VersionRecord,
    y: VersionRecord,
)
    requires
        distinct_ids(rows, crate_id),
        is_next_by_date(rows, crate_id, bound, x),
        is_next_by_date(rows, crate_id, bound, y),
    ensures
        x == y,
{
    let ix = choose|i: int| date_candidate(rows, crate_id, bound, i) && rows[i] == x;
    let iy = choose|i: int| date_candidate(rows, crate_id, bound, i) && rows[i] == y;
    assert(!date_before(rows[ix], y));
    assert(!date_before(rows[iy], x));
    if ix < iy {
        assert(rows[ix].id != rows[iy].id);
    } else if iy < ix {
        assert(rows[iy].id != rows[ix].id);
    }
}

proof fn lemma_date_prefix(
    rows: Seq<VersionRecord>,
    crate_id: i32,
    start: Option<(i64, i32)>,
    a: Seq<VersionRecord>,
    b: Seq<VersionRecord>,
)
    requires
        distinct_ids(rows, crate_id),
        date_chain(rows, crate_id, start, a),
        date_chain(rows, crate_id, start, b),
        a.len() <= b.len(),
    ensures
        a =~= b.take(a.len() as int),
    decreases a.len(),
{
    if a.len() > 0 {
        let k = a.len() - 1;
        let ak = a.take(k);
        let bk = b.take(k);
        lemma_chain_take(rows, crate_id, start, a, k);
        lemma_chain_take(rows, crate_id, start, b, k);
        lemma_date_prefix(rows, crate_id, start, ak, bk);
        assert(forall|j: int| 0 <= j < k ==> a[j] == ak[j] && b[j] == bk[j] && ak[j] == bk[j]);
        let bound = date_bound_at(start, a, k);
        assert(bound == date_bound_at(start, b, k));
        assert(is_next_by_date(rows, crate_id, bound, a[k]));
        assert(is_next_by_date(rows, crate_id, bound, b[k]));
        lemma_next_unique(rows, crate_id, bound, a[k], b[k]);
    }
}

/// With unique ids, the date listing from a position is determined: of two
/// listings from the same position the shorter is a prefix of the longer,
/// and two that both run to the end are equal. So following the cursors of
/// full pages until a page comes back short gives the listing without
/// pagination.
pub proof fn lemma_date_listing_unique(
    rows: Seq<VersionRecord>,
    crate_id: i32,
    start: Option<(i64, i32)>,
    a: Seq<VersionRecord>,
    b: Seq<VersionRecord>,
)
    requires
        distinct_ids(rows, crate_id),
        date_chain(rows, crate_id, start, a),
        date_chain(rows, crate_id, start, b),
        a.len() <= b.len(),
    ensures
        a =~= b.take(a.len() as int),
        exhausted_by_date(rows, crate_id, date_bound_at(start, a, a.len() as int)) ==> a =~= b,
{
    lemma_date_prefix(rows, crate_id, start, a, b);
    if exhausted_by_date(rows, crate_id, date_bound_at(start, a, a.len() as int)) && a.len()
        < b.len() {
        let k = a.len() as int;
        let bound = date_bound_at(start, b, k);
        assert(is_next_by_date(rows, crate_id, bound, b[k]));
        assert(bound == date_bound_at(start, a, k)) by {
            if k > 0 {
                assert(b[k - 1] == a[k - 1]);
            }
        }
        let i = choose|i: int| date_candidate(rows, crate_id, bound, i) && rows[i] == b[k];
        assert(date_candidate(rows, crate_id, date_bound_at(start, a, k), i));
    }
}

/// With unique ids, the semver page that resumes after the last entry of a
/// full page starts right after it in the same order.
pub proof fn lemma_semver_next_start(
    rows: Seq<VersionRecord>,
    order: Seq<usize>,
    s: int,
    per_page: int,
)
    requires
        forall|q: int| 0 <= q < order.len() ==> order[q] < rows.len(),
        forall|q1: int, q2: int|
            0 <= q1 < q2 < order.len() ==> rows[order[q1] as int].id != rows[order[q2] as int].id,
        0 <= s,
        per_page > 0,
        s + per_page <= order.len(),
    ensures
        ({
            let last = rows[order[s + per_page - 1] as int];
            semver_start(rows, order, Some(SeekPayload::Semver(Semver { id: last.id }))) == if s
                + per_page < order.len() {
                Some(s + per_page)
            } else {
                None::<int>
            }
        }),
{
    let k = s + per_page - 1;
    let id = rows[order[k] as int].id;
    assert(first_with_id(rows, order, id, k));
    let q = choose|q: int| first_with_id(rows, order, id, q);
    assert(q == k);
}

/// No two versions of the crate, at different places in the store, share an id.
pub open spec fn distinct_ids(rows: Seq<VersionRecord>, crate_id: i32) -> bool {
    forall|a: int, b: int|
        0 <= a < b < rows.len() && rows[a].crate_id == crate_id && rows[b].crate_id == crate_id
            ==> rows[a].id != rows[b].id
}

proof fn lemma_crate_positions(rows: Seq<VersionRecord>, crate_id: i32, n: int)
    requires
        0 <= n <= rows.len(),
        rows.len() <= usize::MAX,
    ensures
        crate_positions(rows, crate_id, n).len() <= n,
        forall|k: int|
            0 <= k < crate_positions(rows, crate_id, n).len() ==> (#[trigger] crate_positions(
                rows,
                crate_id,
                n,
            )[k]) < n && rows[crate_positions(rows, crate_id, n)[k] as int].crate_id == crate_id,
        forall|k1: int, k2: int|
            0 <= k1 < k2 < crate_positions(rows, crate_id, n).len() ==> (#[trigger] crate_positions(
                rows,
                crate_id,
                n,
            )[k1]) < #[trigger] crate_positions(rows, crate_id, n)[k2],
    decreases n,
{
    if n > 0 {
        lemma_crate_positions(rows, crate_id, n - 1);
        let p = crate_positions(rows, crate_id, n - 1);
        let q = crate_positions(rows, crate_id, n);
        if rows[n - 1].crate_id == crate_id {
            assert(q == p.push((n - 1) as usize));
            assert(forall|k: int| 0 <= k < p.len() ==> q[k] == p[k]);
            assert(q[p.len() as int] == n - 1);
        } else {
            assert(q == p);
        }
    }
}

/// Pagination of the semver listing is consistent: with distinct ids, the
/// page that resumes after the last entry of a full page starts right after
/// that entry in the same listing, and there is none after the last entry.
/// So following the cursors of full pages walks the whole listing.
pub proof fn lemma_semver_resume(rows: Seq<VersionRecord>, crate_id: i32, s: int, per_page: int)
    requires
        rows.len() <= usize::MAX,
        distinct_ids(rows, crate_id),
        0 <= s,
        per_page > 0,
        s + per_page <= semver_listing(rows, crate_id).len(),
    ensures
        ({
            let order = semver_listing(rows, crate_id);
            let last = rows[order[s + per_page - 1] as int];
            semver_start(rows, order, Some(SeekPayload::Semver(Semver { id: last.id }))) == if s
                + per_page < order.len() {
                Some(s + per_page)
            } else {
                None::<int>
            }
        }),
{
    let f = crate_positions(rows, crate_id, rows.len() as int);
    let perm = sorted_order(nums_at(rows, f), f.len() as int);
    let order = semver_listing(rows, crate_id);
    lemma_crate_positions(rows, crate_id, rows.len() as int);
    lemma_sorted_order_permutation(nums_at(rows, f), f.len() as int);
    assert forall|q: int| 0 <= q < order.len() implies order[q] < rows.len() by {
        assert(order[q] == f[perm[q] as int]);
    }
    assert forall|q1: int, q2: int| 0 <= q1 < q2 < order.len() implies rows[order[q1] as int].id
        != rows[order[q2] as int].id by {
        assert(order[q1] == f[perm[q1] as int]);
        assert(order[q2] == f[perm[q2] as int]);
        assert(perm[q1] != perm[q2]);
        if perm[q1] < perm[q2] {
            assert(f[perm[q1] as int] < f[perm[q2] as int]);
        } else {
            assert(f[perm[q2] as int] < f[perm[q1] as int]);
        }
    }
    lemma_semver_next_start(rows, order, s, per_page);
}

} // verus!
