//! The pagination cursor: a tagged payload and its URL-safe text form.
//!
//! A `Semver` cursor reads `s<id>`; a `Date` cursor reads
//! `d<created_at>.<id>`, each number in decimal with a leading `-` when it is
//! negative. Only these characters occur, so the text needs no escaping in a
//! query string.

use vstd::prelude::*;
use vstd::string::{StrSliceExecFns, StringExecFns};
use crate::digits::{
    all_digits, char_digit, digits_value, int_text, lemma_nat_text,
    lemma_prefix_value_le, nat_text, push_int,
};

verus! {

/// Largest magnitude that a cursor number may have.
pub const MAGNITUDE_CAP: u64 = 9223372036854775808;

/// Cursor of the semantic-version ordering: the id of the last row shown.
#[derive(Clone, Copy, Debug, PartialEq, Eq, Structural)]
pub struct Semver {
    pub id: i32,
}

/// Cursor of the date ordering: creation time (microseconds since the epoch)
/// and id of the last row shown.
#[derive(Clone, Copy, Debug, PartialEq, Eq, Structural)]
pub struct Date {
    pub created_at: i64,
    pub id: i32,
}

/// A decoded cursor.
#[derive(Clone, Copy, Debug, PartialEq, Eq, Structural)]
pub enum SeekPayload {
    Semver(Semver),
    Date(Date),
}

/// The kind of cursor an ordering expects.
#[derive(Clone, Copy, Debug, PartialEq, Eq, Structural)]
pub enum Seek {
    Semver,
    Date,
}

/// Error for a cursor that is malformed or belongs to the other ordering.
#[derive(Clone, Copy, Debug, PartialEq, Eq, Structural)]
pub struct InvalidCursor;

pub open spec fn tag_of(p: SeekPayload) -> Seek {
    match p {
        SeekPayload::Semver(_) => Seek::Semver,
        SeekPayload::Date(_) => Seek::Date,
    }
}

/// The text of a cursor.
pub open spec fn encode_spec(p: SeekPayload) -> Seq<char> {
    match p {
        SeekPayload::Semver(s) => seq!['s'] + int_text(s.id as int),
        SeekPayload::Date(d) => seq!['d'] + int_text(d.created_at as int) + seq!['.'] + int_text(
            d.id as int,
        ),
    }
}

/// `t` is the text of some cursor of kind `tag`.
pub open spec fn is_cursor_text(t: Seq<char>, tag: Seek) -> bool {
    exists|p: SeekPayload| tag_of(p) == tag && #[trigger] encode_spec(p) == t
}

/// Cursor text: the same payload always gives the same text.
pub fn encode_seek(p: &SeekPayload) -> (r: String)
    ensures
        r@ == encode_spec(*p),
{
    let mut out = String::new();
    match p {
        SeekPayload::Semver(s) => {
            proof { reveal_strlit("s"); }
            out.append("s");
            push_int(&mut out, s.id as i64);
        },
        SeekPayload::Date(d) => {
            proof {
                reveal_strlit("d");
                reveal_strlit(".");
            }
            out.append("d");
            push_int(&mut out, d.created_at);
            out.append(".");
            push_int(&mut out, d.id as i64);
        },
    }
    assert(out@ =~= encode_spec(*p));
    out
}

/// Reads the run of digits `t[start..end]`.
fn read_nat(t: &str, start: usize, end: usize) -> (r: Option<u64>)
    requires
        start <= end <= t@.len(),
    ensures
        ({
            let s = t@.subrange(start as int, end as int);
            s.len() > 0 && all_digits(s) && digits_value(s) <= MAGNITUDE_CAP ==> r == Some(
                digits_value(s) as u64,
            )
        }),
        r matches Some(v) ==> v <= MAGNITUDE_CAP,
{
    if start == end {
        return None;
    }
    let ghost s = t@.subrange(start as int, end as int);
    let mut acc: u64 = 0;
    let mut i: usize = start;
    while i < end
        invariant
            start <= i <= end <= t@.len(),
            s == t@.subrange(start as int, end as int),
            acc as nat == digits_value(s.take(i - start)),
            acc <= MAGNITUDE_CAP,
        decreases end - i,
    {
        let c = t.get_char(i);
        assert(s[i - start] == c);
        let d = match char_digit(c) {
            Some(d) => d,
            None => {
                return None;
            },
        };
        proof {
            let p = s.take(i + 1 - start);
            assert(p.drop_last() =~= s.take(i - start));
            assert(p.last() == c);
            assert(digits_value(p) == acc * 10 + d);
        }
        if acc > (MAGNITUDE_CAP - d) / 10 {
            proof {
                lemma_prefix_value_le(s, i + 1 - start);
                assert(acc * 10 + d > MAGNITUDE_CAP) by (nonlinear_arith)
                    requires
                        acc > (MAGNITUDE_CAP - d) / 10,
                        d < 10,
                ;
            }
            return None;
        }
        acc = acc * 10 + d;
        i = i + 1;
    }
    assert(s.take(end - start) =~= s);
    Some(acc)
}

/// Reads the signed decimal text `t[start..end]`.
fn read_int(t: &str, start: usize, end: usize) -> (r: Option<i64>)
    requires
        start <= end <= t@.len(),
    ensures
        forall|n: i64| t@.subrange(start as int, end as int) == int_text(n as int) ==> r == Some(n),
{
    let neg = if start < end {
        t.get_char(start) == '-'
    } else {
        false
    };
    if neg {
        let m = read_nat(t, start + 1, end);
        proof {
            assert forall|n: i64| t@.subrange(start as int, end as int) == int_text(
                n as int,
            ) implies n < 0 && m == Some((-n) as u64) by {
                if n >= 0 {
                    lemma_nat_text(n as nat);
                    assert(t@.subrange(start as int, end as int)[0] == '-');
                    assert(nat_text(n as nat).contains('-'));
                } else {
                    let k = (-n) as nat;
                    lemma_nat_text(k);
                    assert(t@.subrange(start + 1, end as int) =~= t@.subrange(
                        start as int,
                        end as int,
                    ).drop_first());
                    assert(t@.subrange(start + 1, end as int) =~= nat_text(k));
                }
            }
        }
        let r = match m {
            Some(v) => Some((-(v as i128)) as i64),
            None => None,
        };
        assert forall|n: i64| t@.subrange(start as int, end as int) == int_text(n as int) implies r
            == Some(n) by {
            assert(n < 0 && m == Some((-n) as u64));
            assert(-(((-n) as u64) as i128) == n as i128);
        }
        r
    } else {
        let m = read_nat(t, start, end);
        proof {
            assert forall|n: i64| t@.subrange(start as int, end as int) == int_text(
                n as int,
            ) implies n >= 0 && m == Some(n as u64) by {
                if n < 0 {
                    lemma_nat_text((-n) as nat);
                    assert(int_text(n as int)[0] == '-');
                    assert(t@.subrange(start as int, end as int)[0] == t@[start as int]);
                } else {
                    lemma_nat_text(n as nat);
                }
            }
        }
        let r = match m {
            Some(v) => {
                if v > 9223372036854775807 {
                    None
                } else {
                    Some(v as i64)
                }
            },
            None => None,
        };
        assert forall|n: i64| t@.subrange(start as int, end as int) == int_text(n as int) implies r
            == Some(n) by {
            assert(n >= 0 && m == Some(n as u64));
        }
        r
    }
}

/// Narrows a cursor number to an id.
fn to_id(v: Option<i64>) -> (r: Option<i32>)
    ensures
        match v {
            Some(x) => if i32::MIN <= x <= i32::MAX {
                r == Some(x as i32)
            } else {
                r is None
            },
            None => r is None,
        },
{
    match v {
        Some(x) => {
            if x < i32::MIN as i64 || x > i32::MAX as i64 {
                None
            } else {
                Some(x as i32)
            }
        },
        None => None,
    }
}

/// Reads the payload that `t` would be the text of, if any.
fn read_payload(t: &str, tag: Seek) -> (r: Option<SeekPayload>)
    ensures
        forall|p: SeekPayload| tag_of(p) == tag && #[trigger] encode_spec(p) == t@ ==> r == Some(
            p,
        ),
        r matches Some(q) ==> tag_of(q) == tag,
{
    let len = t.unicode_len();
    if len == 0 {
        return None;
    }
    let first = t.get_char(0);
    match tag {
        Seek::Semver => {
            if first != 's' {
                return None;
            }
            let id = to_id(read_int(t, 1, len));
            proof {
                assert forall|p: SeekPayload| tag_of(p) == tag && #[trigger] encode_spec(p)
                    == t@ implies id == Some(p->Semver_0.id) by {
                    assert(t@.subrange(1, len as int) =~= int_text(p->Semver_0.id as int));
                }
            }
            match id {
                Some(id) => Some(SeekPayload::Semver(Semver { id })),
                None => None,
            }
        },
        Seek::Date => {
            if first != 'd' {
                return None;
            }
            let mut dot: usize = 1;
            let mut found = false;
            while dot < len && !found
                invariant
                    1 <= dot <= len,
                    len == t@.len(),
                    forall|k: int| 1 <= k < dot ==> t@[k] != '.',
                    found ==> dot < len && t@[dot as int] == '.',
                decreases len - dot + if found { 0int } else { 1int },
            {
                if t.get_char(dot) == '.' {
                    found = true;
                } else {
                    dot = dot + 1;
                }
            }
            if !found {
                proof {
                    assert forall|p: SeekPayload| tag_of(p) == tag && #[trigger] encode_spec(p)
                        == t@ implies false by {
                        let a = int_text(p->Date_0.created_at as int);
                        assert(t@ =~= seq!['d'] + a + seq!['.'] + int_text(p->Date_0.id as int));
                        assert(t@[1 + a.len() as int] == '.');
                    }
                }
                return None;
            }
            let created_at = read_int(t, 1, dot);
            let id = to_id(read_int(t, dot + 1, len));
            proof {
                assert forall|p: SeekPayload| tag_of(p) == tag && #[trigger] encode_spec(p)
                    == t@ implies created_at == Some(p->Date_0.created_at) && id == Some(
                    p->Date_0.id,
                ) by {
                    let d = p->Date_0;
                    let a = int_text(d.created_at as int);
                    let b = int_text(d.id as int);
                    lemma_int_text_no_dot(d.created_at as int);
                    assert(t@ =~= seq!['d'] + a + seq!['.'] + b);
                    assert(t@[1 + a.len() as int] == '.');
                    if dot < 1 + a.len() {
                        assert(t@[dot as int] == a[dot - 1]);
                        assert(a.contains('.'));
                    }
                    if dot > 1 + a.len() {
                        assert(t@[1 + a.len() as int] == '.');
                    }
                    assert(dot == 1 + a.len());
                    assert(t@.subrange(1, dot as int) =~= a);
                    assert(t@.subrange(dot + 1, len as int) =~= b);
                }
            }
            match (created_at, id) {
                (Some(created_at), Some(id)) => Some(SeekPayload::Date(Date { created_at, id })),
                _ => None,
            }
        },
    }
}

proof fn lemma_int_text_no_dot(n: int)
    ensures
        !int_text(n).contains('.'),
{
    if n < 0 {
        lemma_nat_text((-n) as nat);
        let t = int_text(n);
        if t.contains('.') {
            let i = choose|i: int| 0 <= i < t.len() && t[i] == '.';
            assert(t[i] == nat_text((-n) as nat)[i - 1]);
        }
    } else {
        lemma_nat_text(n as nat);
    }
}

/// Decodes a cursor of kind `tag`. It succeeds exactly on the texts that
/// `encode_seek` gives for payloads of that kind.
pub fn decode_seek(token: &str, tag: Seek) -> (r: Result<SeekPayload, InvalidCursor>)
    ensures
        match r {
            Ok(p) => tag_of(p) == tag && encode_spec(p) == token@,
            Err(_) => !is_cursor_text(token@, tag),
        },
{
    match read_payload(token, tag) {
        Some(p) => {
            let text = encode_seek(&p);
            let given = String::from_str(token);
            if text == given {
                assert(tag_of(p) == tag) by {
                    match p {
                        SeekPayload::Semver(_) => {},
                        SeekPayload::Date(_) => {},
                    }
                }
                Ok(p)
            } else {
                Err(InvalidCursor)
            }
        },
        None => Err(InvalidCursor),
    }
}

proof fn lemma_int_text_injective(a: int, b: int)
    requires
        int_text(a) == int_text(b),
    ensures
        a == b,
{
    lemma_nat_text(if a < 0 { (-a) as nat } else { a as nat });
    lemma_nat_text(if b < 0 { (-b) as nat } else { b as nat });
    if a < 0 && b < 0 {
        assert(nat_text((-a) as nat) =~= int_text(a).drop_first());
        assert(nat_text((-b) as nat) =~= int_text(b).drop_first());
    } else if a < 0 {
        assert(int_text(a)[0] == '-');
        assert(nat_text(b as nat).contains('-'));
    } else if b < 0 {
        assert(int_text(b)[0] == '-');
        assert(nat_text(a as nat).contains('-'));
    }
}

/// Two payloads with the same text are the same payload.
pub proof fn lemma_encode_injective(p: SeekPayload, q: SeekPayload)
    requires
        encode_spec(p) == encode_spec(q),
    ensures
        p == q,
{
    let t = encode_spec(p);
    match (p, q) {
        (SeekPayload::Semver(x), SeekPayload::Semver(y)) => {
            assert(int_text(x.id as int) =~= t.drop_first());
            assert(int_text(y.id as int) =~= t.drop_first());
            lemma_int_text_injective(x.id as int, y.id as int);
        },
        (SeekPayload::Date(x), SeekPayload::Date(y)) => {
            let a1 = int_text(x.created_at as int);
            let a2 = int_text(y.created_at as int);
            let b1 = int_text(x.id as int);
            let b2 = int_text(y.id as int);
            lemma_int_text_no_dot(x.created_at as int);
            lemma_int_text_no_dot(y.created_at as int);
            assert(t =~= seq!['d'] + a1 + seq!['.'] + b1);
            assert(t =~= seq!['d'] + a2 + seq!['.'] + b2);
            assert(t[1 + a1.len() as int] == '.');
            assert(t[1 + a2.len() as int] == '.');
            if a1.len() < a2.len() {
                assert(t[1 + a1.len() as int] == a2[a1.len() as int]);
                assert(a2.contains('.'));
            }
            if a2.len() < a1.len() {
                assert(t[1 + a2.len() as int] == a1[a2.len() as int]);
                assert(a1.contains('.'));
            }
            assert(a1 =~= t.subrange(1, 1 + a1.len() as int));
            assert(a2 =~= t.subrange(1, 1 + a2.len() as int));
            assert(b1 =~= t.subrange(2 + a1.len() as int, t.len() as int));
            assert(b2 =~= t.subrange(2 + a2.len() as int, t.len() as int));
            lemma_int_text_injective(x.created_at as int, y.created_at as int);
            lemma_int_text_injective(x.id as int, y.id as int);
        },
        (SeekPayload::Semver(_), SeekPayload::Date(_)) => {
            assert(encode_spec(p)[0] == 's');
            assert(encode_spec(q)[0] == 'd');
        },
        (SeekPayload::Date(_), SeekPayload::Semver(_)) => {
            assert(encode_spec(p)[0] == 'd');
            assert(encode_spec(q)[0] == 's');
        },
    }
}

/// Round trip: decoding the text of a cursor, as a cursor of its own kind,
/// succeeds and gives that cursor back; as a cursor of the other kind it fails.
pub proof fn lemma_round_trip(p: SeekPayload, tag: Seek, r: Result<SeekPayload, InvalidCursor>)
    requires
        match r {
            Ok(q) => tag_of(q) == tag && encode_spec(q) == encode_spec(p),
            Err(_) => !is_cursor_text(encode_spec(p), tag),
        },
    ensures
        tag == tag_of(p) ==> r == Ok::<SeekPayload, InvalidCursor>(p),
        tag != tag_of(p) ==> r is Err,
{
    match r {
        Ok(q) => {
            lemma_encode_injective(p, q);
        },
        Err(_) => {
            if tag == tag_of(p) {
                assert(is_cursor_text(encode_spec(p), tag));
            }
        },
    }
}

} // verus!
