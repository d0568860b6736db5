//! Release tracks: the maintenance lines of a crate, each keyed by the most
//! significant non-zero part of its versions, with the highest version seen.

use vstd::prelude::*;
use vstd::string::StringExecFns;
use crate::digits::{nat_text, push_nat};
use crate::version_order::ParsedVersion;

verus! {

/// A release track: `Major(n)` for versions `n.x.y` with `n > 0`, `Minor(m)`
/// for versions `0.m.y`.
#[derive(Clone, Copy, Debug, PartialEq, Eq, Hash, Structural)]
pub enum ReleaseTrackName {
    Minor(u64),
    Major(u64),
}

/// What is known of a release track.
#[derive(Debug, PartialEq, Eq)]
pub struct ReleaseTrackDetails {
    pub highest: ParsedVersion,
}

/// Release tracks in the order in which they were first seen.
#[derive(Debug, PartialEq, Eq)]
pub struct ReleaseTracks(pub Vec<(ReleaseTrackName, ReleaseTrackDetails)>);

/// The track a version belongs to.
pub open spec fn track_of(v: ParsedVersion) -> ReleaseTrackName {
    if v.major == 0 {
        ReleaseTrackName::Minor(v.minor)
    } else {
        ReleaseTrackName::Major(v.major)
    }
}

/// The text form of a track name: `"{major}"` or `"0.{minor}"`.
pub open spec fn track_text(t: ReleaseTrackName) -> Seq<char> {
    match t {
        ReleaseTrackName::Major(n) => nat_text(n as nat),
        ReleaseTrackName::Minor(n) => seq!['0', '.'] + nat_text(n as nat),
    }
}

impl ReleaseTrackName {
    /// The track of a version.
    pub fn from_semver(version: &ParsedVersion) -> (r: ReleaseTrackName)
        ensures
            r == track_of(*version),
    {
        if version.major == 0 {
            ReleaseTrackName::Minor(version.minor)
        } else {
            ReleaseTrackName::Major(version.major)
        }
    }

    /// The text form of the name.
    pub fn to_text(&self) -> (r: String)
        ensures
            r@ == track_text(*self),
    {
        let mut out = String::new();
        match self {
            ReleaseTrackName::Major(n) => {
                push_nat(&mut out, *n);
            },
            ReleaseTrackName::Minor(n) => {
                proof { reveal_strlit("0."); }
                out.append("0.");
                push_nat(&mut out, *n);
            },
        }
        assert(out@ =~= track_text(*self));
        out
    }
}

/// Where the track `key` stands among the entries, if it is there.
pub open spec fn track_index(m: Seq<(ReleaseTrackName, ParsedVersion)>, key: ReleaseTrackName) -> Option<
    int,
> {
    if exists|i: int| 0 <= i < m.len() && m[i].0 == key {
        Some(choose|i: int| 0 <= i < m.len() && m[i].0 == key)
    } else {
        None
    }
}

/// The tracks of a sequence of versions: each version without a pre-release
/// part opens its track unless that track is the last one opened; where the
/// track is already there further up, its highest version is replaced in place.
pub open spec fn tracks_of(vs: Seq<ParsedVersion>) -> Seq<(ReleaseTrackName, ParsedVersion)>
    decreases vs.len(),
{
    if vs.len() == 0 {
        Seq::empty()
    } else {
        let m = tracks_of(vs.drop_last());
        let v = vs.last();
        let key = track_of(v);
        if v.pre@.len() > 0 {
            m
        } else if m.len() > 0 && m.last().0 == key {
            m
        } else {
            match track_index(m, key) {
                Some(i) => m.update(i, (key, v)),
                None => m.push((key, v)),
            }
        }
    }
}

/// No track appears twice.
pub open spec fn keys_unique(m: Seq<(ReleaseTrackName, ParsedVersion)>) -> bool {
    forall|i: int, j: int| 0 <= i < j < m.len() ==> m[i].0 != m[j].0
}

pub open spec fn entries_of(e: Seq<(ReleaseTrackName, ReleaseTrackDetails)>) -> Seq<
    (ReleaseTrackName, ParsedVersion),
> {
    e.map_values(|x: (ReleaseTrackName, ReleaseTrackDetails)| (x.0, x.1.highest))
}

impl ReleaseTracks {
    /// Groups versions, given highest first, into release tracks, keeping for
    /// each track the first version of it seen. Pre-release versions are
    /// skipped; yanked ones are for the caller to leave out.
    pub fn from_sorted_semver_iter(versions: &Vec<ParsedVersion>) -> (r: ReleaseTracks)
        ensures
            entries_of(r.0@) == tracks_of(versions@),
            keys_unique(entries_of(r.0@)),
    {
        let mut map: Vec<(ReleaseTrackName, ReleaseTrackDetails)> = Vec::new();
        let mut i: usize = 0;
        while i < versions.len()
            invariant
                i <= versions@.len(),
                entries_of(map@) == tracks_of(versions@.take(i as int)),
                keys_unique(entries_of(map@)),
            decreases versions@.len() - i,
        {
            let ghost before = entries_of(map@);
            assert(versions@.take(i + 1).drop_last() =~= versions@.take(i as int));
            let num = &versions[i];
            if !num.is_prerelease() {
                let key = ReleaseTrackName::from_semver(num);
                let n = map.len();
                let same_as_last = n > 0 && map[n - 1].0 == key;
                if !same_as_last {
                    let mut j: usize = 0;
                    let mut found = false;
                    while j < n && !found
                        invariant
                            n == map@.len(),
                            before == entries_of(map@),
                            j <= n,
                            forall|q: int| 0 <= q < j ==> before[q].0 != key,
                            found ==> j < n && before[j as int].0 == key,
                        decreases n - j + if found { 0int } else { 1int },
                    {
                        if map[j].0 == key {
                            found = true;
                        } else {
                            j = j + 1;
                        }
                    }
                    let entry = (key, ReleaseTrackDetails { highest: num.duplicate() });
                    if found {
                        proof {
                            let q = choose|q: int| 0 <= q < before.len() && before[q].0 == key;
                            assert(q == j as int);
                        }
                        map.set(j, entry);
                        assert(entries_of(map@) =~= before.update(j as int, (key, *num)));
                    } else {
                        assert(track_index(before, key) is None);
                        map.push(entry);
                        assert(entries_of(map@) =~= before.push((key, *num)));
                    }
                }
            }
            i = i + 1;
        }
        assert(versions@.take(versions@.len() as int) =~= versions@);
        ReleaseTracks(map)
    }
}

} // verus!
