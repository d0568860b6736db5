use crate_versions::listing::{
    count_versions, list_by_date, list_by_semver, next_seek_params, PaginatedVersions,
    VersionRecord,
};
use crate_versions::pagination::{ListError, Page, PaginationOptions};
use crate_versions::seek::{encode_seek, Date, Seek, SeekPayload, Semver};

fn rec(id: i32, created_at: i64, num: &str, crate_id: i32) -> VersionRecord {
    VersionRecord {
        id,
        created_at,
        num: num.to_string(),
        crate_id,
        publisher_id: None,
    }
}

fn nums(p: &PaginatedVersions) -> Vec<String> {
    p.data.iter().map(|r| r.num.clone()).collect()
}

fn ids(p: &PaginatedVersions) -> Vec<i32> {
    p.data.iter().map(|r| r.id).collect()
}

fn opts(per_page: u32, page: Page) -> PaginationOptions {
    PaginationOptions::seek_only(per_page, page).unwrap()
}

fn semver_rows() -> Vec<VersionRecord> {
    vec![
        rec(1, 10, "1.0.0", 7),
        rec(2, 20, "bad-string", 7),
        rec(3, 30, "2.0.0", 7),
        rec(10, 5, "9.9.9", 8),
        rec(4, 40, "0.9.0", 7),
        rec(5, 50, "1.5.0", 7),
    ]
}

#[test]
fn semver_pages_in_order() {
    let rows = semver_rows();
    let first = list_by_semver(&rows, 7, Some(&opts(2, Page::Unspecified))).unwrap();
    assert_eq!(nums(&first), vec!["2.0.0", "1.5.0"]);
    assert_eq!(first.meta.total, 5);
    let next = first.meta.next_page.clone().unwrap();
    assert_eq!(next, "s5");

    let second = list_by_semver(&rows, 7, Some(&opts(2, Page::Seek(next)))).unwrap();
    assert_eq!(nums(&second), vec!["1.0.0", "0.9.0"]);
    assert_eq!(second.meta.total, 5);
    let next = second.meta.next_page.clone().unwrap();

    let third = list_by_semver(&rows, 7, Some(&opts(2, Page::Seek(next)))).unwrap();
    assert_eq!(nums(&third), vec!["bad-string"]);
    assert_eq!(third.meta.total, 5);
    assert_eq!(third.meta.next_page, None);
}

#[test]
fn semver_full_listing_matches_pages() {
    let rows = semver_rows();
    let all = list_by_semver(&rows, 7, None).unwrap();
    assert_eq!(
        nums(&all),
        vec!["2.0.0", "1.5.0", "1.0.0", "0.9.0", "bad-string"]
    );
    assert_eq!(all.meta.total, 5);
    assert_eq!(all.meta.next_page, None);
    for per_page in 1..=6u32 {
        let mut walked = Vec::new();
        let mut page = Page::Unspecified;
        loop {
            let p = list_by_semver(&rows, 7, Some(&opts(per_page, page))).unwrap();
            assert_eq!(p.meta.total, 5);
            walked.extend(nums(&p));
            match p.meta.next_page {
                Some(t) => page = Page::Seek(t),
                None => break,
            }
        }
        assert_eq!(walked, nums(&all));
    }
}

#[test]
fn semver_sort_is_stable() {
    let rows = vec![
        rec(1, 1, "zzz", 1),
        rec(2, 2, "1.0.0-beta", 1),
        rec(3, 3, "aaa", 1),
        rec(4, 4, "1.0.0", 1),
        rec(5, 5, "1.0.0-alpha", 1),
        rec(6, 6, "not a version", 1),
    ];
    let all = list_by_semver(&rows, 1, None).unwrap();
    assert_eq!(ids(&all), vec![4, 2, 5, 1, 3, 6]);
}

#[test]
fn semver_unknown_or_last_cursor_ends() {
    let rows = semver_rows();
    let unknown = Page::Seek(encode_seek(&SeekPayload::Semver(Semver { id: 99 })));
    let p = list_by_semver(&rows, 7, Some(&opts(2, unknown))).unwrap();
    assert!(p.data.is_empty());
    assert_eq!(p.meta.total, 5);
    assert_eq!(p.meta.next_page, None);
    let last = Page::Seek(encode_seek(&SeekPayload::Semver(Semver { id: 2 })));
    let p = list_by_semver(&rows, 7, Some(&opts(2, last))).unwrap();
    assert!(p.data.is_empty());
}

#[test]
fn semver_refuses_date_cursor() {
    let rows = semver_rows();
    let page = Page::Seek(encode_seek(&SeekPayload::Date(Date {
        created_at: 1,
        id: 1,
    })));
    assert_eq!(
        list_by_semver(&rows, 7, Some(&opts(2, page))),
        Err(ListError::InvalidCursor)
    );
}

fn date_rows() -> Vec<VersionRecord> {
    vec![
        rec(1, 100, "0.1.0", 3),
        rec(2, 300, "0.3.0", 3),
        rec(3, 200, "0.2.0", 3),
        rec(4, 300, "0.3.1", 3),
        rec(5, 999, "5.0.0", 4),
        rec(6, 50, "0.0.1", 3),
    ]
}

#[test]
fn date_listing_newest_first() {
    let rows = date_rows();
    let all = list_by_date(&rows, 3, None).unwrap();
    assert_eq!(ids(&all), vec![4, 2, 3, 1, 6]);
    assert_eq!(all.meta.total, 5);
    assert_eq!(all.meta.next_page, None);
}

#[test]
fn date_pages_follow_cursor() {
    let rows = date_rows();
    let first = list_by_date(&rows, 3, Some(&opts(2, Page::Unspecified))).unwrap();
    assert_eq!(ids(&first), vec![4, 2]);
    assert_eq!(first.meta.total, 5);
    let next = first.meta.next_page.clone().unwrap();
    assert_eq!(next, "d300.2");
    let second = list_by_date(&rows, 3, Some(&opts(2, Page::Seek(next)))).unwrap();
    assert_eq!(ids(&second), vec![3, 1]);
    let next = second.meta.next_page.clone().unwrap();
    let third = list_by_date(&rows, 3, Some(&opts(2, Page::Seek(next)))).unwrap();
    assert_eq!(ids(&third), vec![6]);
    assert_eq!(third.meta.next_page, None);
    assert_eq!(third.meta.total, 5);
}

#[test]
fn date_exhausted_page_has_zero_total() {
    let rows = date_rows();
    let first = list_by_date(&rows, 3, Some(&opts(5, Page::Unspecified))).unwrap();
    assert_eq!(first.data.len(), 5);
    let next = first.meta.next_page.clone().unwrap();
    let after = list_by_date(&rows, 3, Some(&opts(5, Page::Seek(next)))).unwrap();
    assert!(after.data.is_empty());
    assert_eq!(after.meta.total, 0);
    assert_eq!(after.meta.next_page, None);
}

#[test]
fn date_full_listing_matches_pages() {
    let rows = date_rows();
    let all = list_by_date(&rows, 3, None).unwrap();
    for per_page in 1..=6u32 {
        let mut walked = Vec::new();
        let mut page = Page::Unspecified;
        loop {
            let p = list_by_date(&rows, 3, Some(&opts(per_page, page))).unwrap();
            walked.extend(ids(&p));
            match p.meta.next_page {
                Some(t) => page = Page::Seek(t),
                None => break,
            }
        }
        assert_eq!(walked, ids(&all));
    }
}

#[test]
fn date_refuses_bad_cursors() {
    let rows = date_rows();
    let semver = Page::Seek(encode_seek(&SeekPayload::Semver(Semver { id: 2 })));
    assert_eq!(
        list_by_date(&rows, 3, Some(&opts(2, semver))),
        Err(ListError::InvalidCursor)
    );
    let garbage = Page::Seek("not-a-cursor".to_string());
    assert_eq!(
        list_by_date(&rows, 3, Some(&opts(2, garbage))),
        Err(ListError::InvalidCursor)
    );
}

#[test]
fn numeric_paging_is_refused() {
    assert_eq!(
        PaginationOptions::seek_only(10, Page::Numeric(2)),
        Err(ListError::NumericPagingUnsupported)
    );
    assert_eq!(
        PaginationOptions::seek_only(0, Page::Unspecified),
        Err(ListError::InvalidPerPage)
    );
    let rows = date_rows();
    let numeric = PaginationOptions {
        page: Page::Numeric(1),
        per_page: 2,
    };
    assert_eq!(
        list_by_date(&rows, 3, Some(&numeric)),
        Err(ListError::NumericPagingUnsupported)
    );
    assert_eq!(
        list_by_semver(&rows, 3, Some(&numeric)),
        Err(ListError::NumericPagingUnsupported)
    );
    let zero = PaginationOptions {
        page: Page::Unspecified,
        per_page: 0,
    };
    assert_eq!(
        list_by_semver(&rows, 3, Some(&zero)),
        Err(ListError::InvalidPerPage)
    );
}

#[test]
fn unknown_crate_lists_nothing() {
    let rows = date_rows();
    let p = list_by_semver(&rows, 42, None).unwrap();
    assert!(p.data.is_empty());
    assert_eq!(p.meta.total, 0);
    let p = list_by_date(&rows, 42, Some(&opts(3, Page::Unspecified))).unwrap();
    assert!(p.data.is_empty());
    assert_eq!(p.meta.total, 0);
}

#[test]
fn counts_and_next_cursor() {
    let rows = date_rows();
    assert_eq!(count_versions(&rows, 3), 5);
    assert_eq!(count_versions(&rows, 4), 1);
    let page = vec![rec(8, 77, "1.0.0", 3)];
    assert_eq!(
        next_seek_params(&page, &opts(1, Page::Unspecified), Seek::Date),
        Some("d77.8".to_string())
    );
    assert_eq!(
        next_seek_params(&page, &opts(2, Page::Unspecified), Seek::Date),
        None
    );
    assert_eq!(
        Seek::Semver.to_payload(&page[0]),
        SeekPayload::Semver(Semver { id: 8 })
    );
}
