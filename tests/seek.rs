use crate_versions::seek::{decode_seek, encode_seek, Date, InvalidCursor, Seek, SeekPayload, Semver};

#[test]
fn encode_semver_cursor() {
    let p = SeekPayload::Semver(Semver { id: 42 });
    assert_eq!(encode_seek(&p), "s42");
}

#[test]
fn encode_date_cursor() {
    let p = SeekPayload::Date(Date {
        created_at: 1_700_000_000_123_456,
        id: -7,
    });
    assert_eq!(encode_seek(&p), "d1700000000123456.-7");
}

#[test]
fn cursor_round_trip() {
    let payloads = [
        SeekPayload::Semver(Semver { id: 0 }),
        SeekPayload::Semver(Semver { id: i32::MAX }),
        SeekPayload::Semver(Semver { id: i32::MIN }),
        SeekPayload::Date(Date {
            created_at: i64::MIN,
            id: 5,
        }),
        SeekPayload::Date(Date {
            created_at: i64::MAX,
            id: i32::MIN,
        }),
        SeekPayload::Date(Date {
            created_at: 0,
            id: 0,
        }),
    ];
    for p in payloads {
        let tag = match p {
            SeekPayload::Semver(_) => Seek::Semver,
            SeekPayload::Date(_) => Seek::Date,
        };
        let text = encode_seek(&p);
        assert_eq!(decode_seek(&text, tag), Ok(p));
    }
}

#[test]
fn cursor_of_other_ordering_is_refused() {
    let text = encode_seek(&SeekPayload::Semver(Semver { id: 3 }));
    assert_eq!(decode_seek(&text, Seek::Date), Err(InvalidCursor));
    let text = encode_seek(&SeekPayload::Date(Date {
        created_at: 9,
        id: 3,
    }));
    assert_eq!(decode_seek(&text, Seek::Semver), Err(InvalidCursor));
}

#[test]
fn malformed_cursors_are_refused() {
    for t in [
        "", "s", "s042", "s-0", "s+1", "s1x", "x1", "d1", "d1.", "d.1", "d01.1", "d1.2.3",
        "s2147483648", "d9223372036854775808.1", "s 1",
    ] {
        let tag = if t.starts_with('d') { Seek::Date } else { Seek::Semver };
        assert_eq!(decode_seek(t, tag), Err(InvalidCursor), "{t}");
    }
    assert_eq!(
        decode_seek("s-2147483648", Seek::Semver),
        Ok(SeekPayload::Semver(Semver { id: i32::MIN }))
    );
}
