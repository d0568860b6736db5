//! Semantic-version precedence of version strings, and a stable descending
//! sort by it in which strings that are no version come last.

use vstd::prelude::*;
use core::cmp::Ordering;
use vstd::string::StringExecFns;
use crate::digits::{nat_text, push_nat};

verus! {

/// A parsed semantic version: `major.minor.patch[-pre][+build]`.
#[derive(Clone, Debug, PartialEq, Eq)]
pub struct ParsedVersion {
    pub major: u64,
    pub minor: u64,
    pub patch: u64,
    pub pre: String,
    pub build: String,
}

impl View for ParsedVersion {
    type V = (u64, u64, u64, Seq<char>, Seq<char>);

    open spec fn view(&self) -> Self::V {
        (self.major, self.minor, self.patch, self.pre@, self.build@)
    }
}

/// The parts of the semantic version that a text spells, if it spells one.
pub uninterp spec fn semver_parse(s: Seq<char>) -> Option<(u64, u64, u64, Seq<char>, Seq<char>)>;

/// How the semantic versions of two texts compare, a text that is no version
/// ranking below every version.
pub uninterp spec fn precedence(a: Seq<char>, b: Seq<char>) -> Ordering;

pub open spec fn reversed(o: Ordering) -> Ordering {
    match o {
        Ordering::Less => Ordering::Greater,
        Ordering::Equal => Ordering::Equal,
        Ordering::Greater => Ordering::Less,
    }
}

pub open spec fn cmp_u64(a: u64, b: u64) -> Ordering {
    if a < b {
        Ordering::Less
    } else if a > b {
        Ordering::Greater
    } else {
        Ordering::Equal
    }
}

/// Lexicographic comparison of `(major, minor, patch)`.
pub open spec fn core_cmp(
    a: (u64, u64, u64, Seq<char>, Seq<char>),
    b: (u64, u64, u64, Seq<char>, Seq<char>),
) -> Ordering {
    if a.0 != b.0 {
        cmp_u64(a.0, b.0)
    } else if a.1 != b.1 {
        cmp_u64(a.1, b.1)
    } else {
        cmp_u64(a.2, b.2)
    }
}

/// The text form of a version.
pub open spec fn version_text(v: ParsedVersion) -> Seq<char> {
    let core = nat_text(v.major as nat) + seq!['.'] + nat_text(v.minor as nat) + seq!['.']
        + nat_text(v.patch as nat);
    let with_pre = if v.pre@.len() > 0 {
        core + seq!['-'] + v.pre@
    } else {
        core
    };
    if v.build@.len() > 0 {
        with_pre + seq!['+'] + v.build@
    } else {
        with_pre
    }
}

/// The text is a semantic version.
pub open spec fn parses(s: Seq<char>) -> bool {
    semver_parse(s) is Some
}

/// Relies on `semver::Version::parse`: it succeeds on a text exactly when the
/// text is a semantic version, and gives that version's parts.
#[verifier::external_body]
fn parse_semver(s: &str) -> (r: Option<ParsedVersion>)
    ensures
        match r {
            Some(v) => semver_parse(s@) == Some(v@),
            None => semver_parse(s@) is None,
        },
{
    semver::Version::parse(s).ok().map(
        |v| ParsedVersion {
            major: v.major,
            minor: v.minor,
            patch: v.patch,
            pre: v.pre.as_str().to_string(),
            build: v.build.as_str().to_string(),
        },
    )
}

/// Relies on `semver::Version::parse` and the `Ord` of `Option<semver::Version>`
/// (derived on `Version` over major, minor, patch, pre-release and build, with
/// `None` below every `Some`): a total order, so swapping the arguments
/// reverses the result.
#[verifier::external_body]
fn compare_nums(a: &str, b: &str) -> (r: Ordering)
    ensures
        r == precedence(a@, b@),
        reversed(r) == precedence(b@, a@),
        !parses(a@) && !parses(b@) ==> r == Ordering::Equal,
        !parses(a@) && parses(b@) ==> r == Ordering::Less,
        parses(a@) && !parses(b@) ==> r == Ordering::Greater,
        parses(a@) && parses(b@) && core_cmp(semver_parse(a@).unwrap(), semver_parse(b@).unwrap())
            != Ordering::Equal ==> r == core_cmp(
            semver_parse(a@).unwrap(),
            semver_parse(b@).unwrap(),
        ),
{
    semver::Version::parse(a).ok().cmp(&semver::Version::parse(b).ok())
}

impl ParsedVersion {
    /// Parses a semantic version; `None` when the text is not one.
    pub fn parse(s: &str) -> (r: Option<ParsedVersion>)
        ensures
            match r {
                Some(v) => semver_parse(s@) == Some(v@),
                None => semver_parse(s@) is None,
            },
    {
        parse_semver(s)
    }

    /// A copy of the version.
    pub fn duplicate(&self) -> (r: ParsedVersion)
        ensures
            r == *self,
    {
        ParsedVersion {
            major: self.major,
            minor: self.minor,
            patch: self.patch,
            pre: self.pre.clone(),
            build: self.build.clone(),
        }
    }

    /// The text of the version: `major.minor.patch`, then `-pre` and `+build`
    /// where those parts are present.
    pub fn to_text(&self) -> (r: String)
        ensures
            r@ == version_text(*self),
    {
        let mut out = String::new();
        proof {
            reveal_strlit(".");
            reveal_strlit("-");
            reveal_strlit("+");
        }
        push_nat(&mut out, self.major);
        out.append(".");
        push_nat(&mut out, self.minor);
        out.append(".");
        push_nat(&mut out, self.patch);
        let ghost core = out@;
        if !self.pre.as_str().is_empty() {
            out.append("-");
            out.append(self.pre.as_str());
        }
        let ghost with_pre = out@;
        if !self.build.as_str().is_empty() {
            out.append("+");
            out.append(self.build.as_str());
        }
        assert(out@ =~= version_text(*self));
        out
    }

    /// The version carries a pre-release part.
    pub fn is_prerelease(&self) -> (r: bool)
        ensures
            r == (self.pre@.len() > 0),
    {
        !self.pre.as_str().is_empty()
    }
}

/// `perm` lists each index below `n` exactly once.
pub open spec fn is_permutation(perm: Seq<usize>, n: nat) -> bool {
    &&& perm.len() == n
    &&& forall|k: int| 0 <= k < perm.len() ==> perm[k] < n
    &&& forall|k1: int, k2: int| 0 <= k1 < k2 < perm.len() ==> perm[k1] != perm[k2]
}

/// Each entry of the listing ranks no higher than the one before it.
pub open spec fn descending(nums: Seq<Seq<char>>, perm: Seq<usize>) -> bool {
    forall|k: int|
        0 <= k < perm.len() - 1 ==> precedence(
            #[trigger] nums[perm[k + 1] as int],
            nums[perm[k] as int],
        ) != Ordering::Greater
}

/// No text that is a version comes after one that is not.
pub open spec fn versions_first(nums: Seq<Seq<char>>, perm: Seq<usize>) -> bool {
    forall|k1: int, k2: int|
        0 <= k1 < k2 < perm.len() ==> !(!parses(#[trigger] nums[perm[k1] as int]) && parses(
            #[trigger] nums[perm[k2] as int],
        ))
}

/// Two entries change their relative order only where the one moved ahead
/// ranks strictly higher: entries of equal rank keep their input order.
pub open spec fn stable(nums: Seq<Seq<char>>, perm: Seq<usize>) -> bool {
    forall|k1: int, k2: int|
        0 <= k1 < k2 < perm.len() && perm[k1] > perm[k2] ==> precedence(
            #[trigger] nums[perm[k1] as int],
            #[trigger] nums[perm[k2] as int],
        ) == Ordering::Greater
}

pub open spec fn views(nums: Seq<String>) -> Seq<Seq<char>> {
    nums.map_values(|s: String| s@)
}

/// Where `x` is inserted into `out` when moved up from position `j` past
/// every entry that it ranks strictly above.
pub open spec fn insert_pos(nums: Seq<Seq<char>>, out: Seq<usize>, x: Seq<char>, j: int) -> int
    decreases j,
{
    if j <= 0 {
        0
    } else if precedence(x, nums[out[j - 1] as int]) != Ordering::Greater {
        j
    } else {
        insert_pos(nums, out, x, j - 1)
    }
}

/// The listing of the first `n` entries of `nums` that the sort gives: each
/// entry in turn placed after everything that it does not rank above.
pub open spec fn sorted_order(nums: Seq<Seq<char>>, n: int) -> Seq<usize>
    decreases n,
{
    if n <= 0 {
        Seq::empty()
    } else {
        let out = sorted_order(nums, n - 1);
        out.insert(insert_pos(nums, out, nums[n - 1], out.len() as int), (n - 1) as usize)
    }
}

proof fn lemma_insert_pos_bounds(nums: Seq<Seq<char>>, out: Seq<usize>, x: Seq<char>, j: int)
    requires
        0 <= j,
    ensures
        0 <= insert_pos(nums, out, x, j) <= j,
    decreases j,
{
    if j > 0 {
        lemma_insert_pos_bounds(nums, out, x, j - 1);
    }
}

/// The sort lists each entry exactly once.
pub proof fn lemma_sorted_order_permutation(nums: Seq<Seq<char>>, n: int)
    requires
        0 <= n <= nums.len(),
        n <= usize::MAX,
    ensures
        is_permutation(sorted_order(nums, n), n as nat),
    decreases n,
{
    if n > 0 {
        let out = sorted_order(nums, n - 1);
        lemma_sorted_order_permutation(nums, n - 1);
        let p = insert_pos(nums, out, nums[n - 1], out.len() as int);
        lemma_insert_pos_bounds(nums, out, nums[n - 1], out.len() as int);
        let o = out.insert(p, (n - 1) as usize);
        assert(o == sorted_order(nums, n));
        assert(o[p] == n - 1);
        assert forall|k: int| 0 <= k < o.len() implies o[k] < n by {
            if k < p {
                assert(o[k] == out[k]);
            } else if k > p {
                assert(o[k] == out[k - 1]);
            }
        }
        assert forall|k1: int, k2: int| 0 <= k1 < k2 < o.len() implies o[k1] != o[k2] by {
            if k1 < p && k2 > p {
                assert(o[k2] == out[k2 - 1]);
            } else if k1 > p {
                assert(o[k1] == out[k1 - 1]);
                assert(o[k2] == out[k2 - 1]);
            } else if k2 < p {
            } else if k1 == p {
                assert(o[k2] == out[k2 - 1]);
            } else {
                assert(o[k1] == out[k1]);
            }
        }
    }
}

/// The order in which to list `nums`, highest version first: a stable sort,
/// with every text that is no version after every version.
#[verifier::rlimit(40)]
pub fn sort_desc_by_semver(nums: &Vec<String>) -> (perm: Vec<usize>)
    ensures
        perm@ == sorted_order(views(nums@), nums@.len() as int),
        is_permutation(perm@, nums@.len()),
        descending(views(nums@), perm@),
        versions_first(views(nums@), perm@),
        stable(views(nums@), perm@),
{
    let ghost ns = views(nums@);
    let n = nums.len();
    let mut out: Vec<usize> = Vec::new();
    let mut i: usize = 0;
    while i < n
        invariant
            n == nums@.len(),
            ns == views(nums@),
            0 <= i <= n,
            out@.len() == i,
            out@ == sorted_order(ns, i as int),
            forall|k: int| 0 <= k < out@.len() ==> out@[k] < i,
            forall|k1: int, k2: int| 0 <= k1 < k2 < out@.len() ==> out@[k1] != out@[k2],
            descending(ns, out@),
            versions_first(ns, out@),
            stable(ns, out@),
        decreases n - i,
    {
        let ghost x = ns[i as int];
        assert(x == nums@[i as int]@);
        let mut j: usize = out.len();
        let mut done = false;
        while j > 0 && !done
            invariant
                n == nums@.len(),
                ns == views(nums@),
                x == ns[i as int],
                x == nums@[i as int]@,
                i < n,
                out@.len() == i,
                forall|k: int| 0 <= k < out@.len() ==> out@[k] < i,
                0 <= j <= out@.len(),
                forall|k: int|
                    j <= k < out@.len() ==> precedence(x, #[trigger] ns[out@[k] as int])
                        == Ordering::Greater && precedence(ns[out@[k] as int], x)
                        == Ordering::Less,
                j < out@.len() ==> parses(x),
                done ==> j > 0 && precedence(x, ns[out@[j - 1] as int]) != Ordering::Greater && (
                parses(x) ==> parses(ns[out@[j - 1] as int])),
                insert_pos(ns, out@, x, out@.len() as int) == if done {
                    j as int
                } else {
                    insert_pos(ns, out@, x, j as int)
                },
            decreases j + if done { 0int } else { 1int },
        {
            let prev = out[j - 1];
            assert(ns[prev as int] == nums@[prev as int]@);
            let a = nums[i].as_str();
            let b = nums[prev].as_str();
            assert(a@ == x);
            assert(b@ == ns[prev as int]);
            let c = compare_nums(a, b);
            assert(c == precedence(x, ns[prev as int]));
            assert(reversed(c) == precedence(ns[prev as int], x));
            match c {
                Ordering::Greater => {
                    j = j - 1;
                },
                _ => {
                    done = true;
                },
            }
        }
        let ghost old_out = out@;
        assert(insert_pos(ns, old_out, x, old_out.len() as int) == j);
        out.insert(j, i);
        proof {
            let o = out@;
            assert(o == old_out.insert(j as int, i));
            assert(forall|k: int| 0 <= k < j ==> o[k] == old_out[k]);
            assert(forall|k: int| j < k < o.len() ==> o[k] == old_out[k - 1]);
            assert(o[j as int] == i);
            assert forall|k: int| 0 <= k < o.len() implies o[k] < i + 1 by {
                if k < j {
                    assert(o[k] == old_out[k]);
                } else if k > j {
                    assert(o[k] == old_out[k - 1]);
                }
            }
            assert forall|k1: int, k2: int| 0 <= k1 < k2 < o.len() implies o[k1] != o[k2] by {
                if k1 < j && k2 > j {
                    assert(o[k2] == old_out[k2 - 1]);
                } else if k1 > j {
                    assert(o[k1] == old_out[k1 - 1]);
                    assert(o[k2] == old_out[k2 - 1]);
                } else if k2 < j {
                } else if k1 == j {
                    assert(o[k2] == old_out[k2 - 1]);
                } else {
                    assert(o[k1] == old_out[k1]);
                }
            }
            assert forall|k: int| 0 <= k < o.len() - 1 implies precedence(
                #[trigger] ns[o[k + 1] as int],
                ns[o[k] as int],
            ) != Ordering::Greater by {
                if k + 1 < j {
                    assert(ns[old_out[k + 1] as int] == ns[o[k + 1] as int]);
                    assert(precedence(ns[old_out[k + 1] as int], ns[old_out[k] as int])
                        != Ordering::Greater);
                } else if k + 1 == j {
                    assert(done);
                    assert(ns[o[k + 1] as int] == x);
                    assert(ns[o[k] as int] == ns[old_out[j - 1] as int]);
                } else if k == j {
                    assert(ns[old_out[j as int] as int] == ns[o[k + 1] as int]);
                    assert(ns[o[k] as int] == x);
                    assert(precedence(x, ns[old_out[j as int] as int]) == Ordering::Greater);
                } else {
                    assert(ns[old_out[k] as int] == ns[o[k + 1] as int]);
                    assert(ns[old_out[k - 1] as int] == ns[o[k] as int]);
                    let m = k - 1;
                    assert(0 <= m < old_out.len() - 1);
                    assert(precedence(ns[old_out[m + 1] as int], ns[old_out[m] as int])
                        != Ordering::Greater);
                }
            }
            assert forall|k1: int, k2: int| 0 <= k1 < k2 < o.len() implies !(!parses(
                #[trigger] ns[o[k1] as int],
            ) && parses(#[trigger] ns[o[k2] as int])) by {
                if k1 == j {
                    assert(ns[old_out[k2 - 1] as int] == ns[o[k2] as int]);
                } else if k2 == j {
                    if parses(x) && k1 < j - 1 {
                        assert(ns[old_out[k1] as int] == ns[o[k1] as int]);
                        assert(!(!parses(ns[old_out[k1] as int]) && parses(
                            ns[old_out[j - 1] as int],
                        )));
                    }
                } else {
                    let a = if k1 < j { k1 } else { k1 - 1 };
                    let b = if k2 < j { k2 } else { k2 - 1 };
                    assert(ns[old_out[a] as int] == ns[o[k1] as int]);
                    assert(ns[old_out[b] as int] == ns[o[k2] as int]);
                    assert(!(!parses(ns[old_out[a] as int]) && parses(ns[old_out[b] as int])));
                }
            }
            assert forall|k1: int, k2: int|
                0 <= k1 < k2 < o.len() && o[k1] > o[k2] implies precedence(
                #[trigger] ns[o[k1] as int],
                #[trigger] ns[o[k2] as int],
            ) == Ordering::Greater by {
                if k1 == j {
                    assert(ns[old_out[k2 - 1] as int] == ns[o[k2] as int]);
                } else if k2 == j {
                } else {
                    let a = if k1 < j { k1 } else { k1 - 1 };
                    let b = if k2 < j { k2 } else { k2 - 1 };
                    assert(ns[old_out[a] as int] == ns[o[k1] as int]);
                    assert(ns[old_out[b] as int] == ns[o[k2] as int]);
                    assert(old_out[a] > old_out[b]);
                }
            }
        }
        i = i + 1;
    }
    out
}

} // verus!
