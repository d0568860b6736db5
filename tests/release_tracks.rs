use crate_versions::release_tracks::{ReleaseTrackDetails, ReleaseTrackName, ReleaseTracks};
use crate_versions::version_order::ParsedVersion;
use serde_json::Value;

fn version(s: &str) -> ParsedVersion {
    ParsedVersion::parse(s).unwrap()
}

fn to_json(tracks: &ReleaseTracks) -> Value {
    let mut obj = serde_json::Map::new();
    for (name, details) in &tracks.0 {
        let mut inner = serde_json::Map::new();
        inner.insert("highest".to_string(), Value::String(details.highest.to_text()));
        obj.insert(name.to_text(), Value::Object(inner));
    }
    Value::Object(obj)
}

fn highest(v: &str) -> Value {
    let mut inner = serde_json::Map::new();
    inner.insert("highest".to_string(), Value::String(v.to_string()));
    Value::Object(inner)
}

#[test]
fn release_tracks_empty() {
    let versions: Vec<ParsedVersion> = vec![];
    assert_eq!(
        ReleaseTracks::from_sorted_semver_iter(&versions),
        ReleaseTracks(Vec::new())
    );
}

#[test]
fn release_tracks_prerelease() {
    let versions = vec![version("1.0.0-beta.5")];
    assert_eq!(
        ReleaseTracks::from_sorted_semver_iter(&versions),
        ReleaseTracks(Vec::new())
    );
}

#[test]
fn release_tracks_multiple() {
    let versions: Vec<ParsedVersion> = [
        "100.1.1",
        "100.1.0",
        "1.3.5",
        "1.2.5",
        "1.1.5",
        "0.4.0-rc.1",
        "0.3.23",
        "0.3.22",
        "0.3.21-pre.0",
        "0.3.20",
        "0.3.3",
        "0.3.2",
        "0.3.1",
        "0.3.0",
        "0.2.1",
        "0.2.0",
        "0.1.2",
        "0.1.1",
    ]
    .iter()
    .map(|s| version(s))
    .collect();

    let release_tracks = ReleaseTracks::from_sorted_semver_iter(&versions);
    assert_eq!(
        release_tracks,
        ReleaseTracks(vec![
            (
                ReleaseTrackName::Major(100),
                ReleaseTrackDetails {
                    highest: version("100.1.1")
                }
            ),
            (
                ReleaseTrackName::Major(1),
                ReleaseTrackDetails {
                    highest: version("1.3.5")
                }
            ),
            (
                ReleaseTrackName::Minor(3),
                ReleaseTrackDetails {
                    highest: version("0.3.23")
                }
            ),
            (
                ReleaseTrackName::Minor(2),
                ReleaseTrackDetails {
                    highest: version("0.2.1")
                }
            ),
            (
                ReleaseTrackName::Minor(1),
                ReleaseTrackDetails {
                    highest: version("0.1.2")
                }
            ),
        ])
    );

    let json =
        serde_json::from_str::<Value>(&serde_json::to_string(&to_json(&release_tracks)).unwrap())
            .unwrap();
    let mut expected = serde_json::Map::new();
    expected.insert("100".to_string(), highest("100.1.1"));
    expected.insert("1".to_string(), highest("1.3.5"));
    expected.insert("0.3".to_string(), highest("0.3.23"));
    expected.insert("0.2".to_string(), highest("0.2.1"));
    expected.insert("0.1".to_string(), highest("0.1.2"));
    assert_eq!(json, Value::Object(expected));
}

#[test]
fn track_name_text() {
    assert_eq!(ReleaseTrackName::Major(100).to_text(), "100");
    assert_eq!(ReleaseTrackName::Major(1).to_text(), "1");
    assert_eq!(ReleaseTrackName::Minor(0).to_text(), "0.0");
    assert_eq!(ReleaseTrackName::Minor(23).to_text(), "0.23");
}

#[test]
fn track_of_version() {
    assert_eq!(
        ReleaseTrackName::from_semver(&version("0.7.9")),
        ReleaseTrackName::Minor(7)
    );
    assert_eq!(
        ReleaseTrackName::from_semver(&version("3.0.0")),
        ReleaseTrackName::Major(3)
    );
}

#[test]
fn track_seen_again_keeps_its_place() {
    // Out of order input: the track already present further up is updated in place.
    let versions = vec![version("2.0.0"), version("1.0.0"), version("2.1.0")];
    let tracks = ReleaseTracks::from_sorted_semver_iter(&versions);
    assert_eq!(
        tracks,
        ReleaseTracks(vec![
            (
                ReleaseTrackName::Major(2),
                ReleaseTrackDetails {
                    highest: version("2.1.0")
                }
            ),
            (
                ReleaseTrackName::Major(1),
                ReleaseTrackDetails {
                    highest: version("1.0.0")
                }
            ),
        ])
    );
}

#[test]
fn parse_gives_parts() {
    let v = version("1.2.3-alpha.1+build.5");
    assert_eq!(v.major, 1);
    assert_eq!(v.minor, 2);
    assert_eq!(v.patch, 3);
    assert_eq!(v.pre, "alpha.1");
    assert_eq!(v.build, "build.5");
    assert!(v.is_prerelease());
    assert_eq!(v.to_text(), "1.2.3-alpha.1+build.5");
    assert!(!version("0.3.23").is_prerelease());
    assert!(ParsedVersion::parse("bad-string").is_none());
    assert!(ParsedVersion::parse("1.0").is_none());
}
