//! Case-insensitive search within display lines.
use vstd::prelude::*;
use crate::render::{runs_text, runs_view, Line, Run};
use crate::text::chars_of;

verus! {

/// What `str::to_lowercase` returns for a string.
pub uninterp spec fn str_lowercase(s: Seq<char>) -> Seq<char>;

/// The first character of what `char::to_lowercase` yields for `c`.
pub uninterp spec fn char_lowercase(c: char) -> char;

/// Wraps `str::to_lowercase`; the contract claims that the result is named
/// by `str_lowercase` of the argument.
#[verifier::external_body]
fn lowercase(s: &str) -> (r: String)
    ensures
        r@ == str_lowercase(s@),
{
    s.to_lowercase()
}

/// Wraps `char::to_lowercase`, keeping the first character it yields (it
/// always yields at least one); the contract claims that the result is
/// named by `char_lowercase` of the argument.
#[verifier::external_body]
fn lower_char(c: char) -> (r: char)
    ensures
        r == char_lowercase(c),
{
    c.to_lowercase().next().unwrap_or(c)
}

/// Whether `needle` occurs in `hay` as a contiguous piece.
pub open spec fn occurs(hay: Seq<char>, needle: Seq<char>) -> bool {
    exists|i: int| 0 <= i && i + needle.len() <= hay.len() && #[trigger] hay.subrange(i, i + needle.len()) == needle
}

fn occurs_at(hay: &Vec<char>, needle: &Vec<char>, i: usize) -> (b: bool)
    requires
        i + needle@.len() <= hay@.len(),
    ensures
        b == (hay@.subrange(i as int, i + needle@.len()) == needle@),
{
    let hl = hay.len();
    let mut k: usize = 0;
    while k < needle.len()
        invariant
            hl == hay@.len(),
            i + needle@.len() <= hay@.len(),
            k <= needle@.len(),
            forall|j: int| 0 <= j < k ==> hay@[i + j] == needle@[j],
        decreases needle.len() - k,
    {
        if hay[i + k] != needle[k] {
            assert(hay@.subrange(i as int, i + needle@.len())[k as int] != needle@[k as int]);
            return false;
        }
        k = k + 1;
    }
    assert(hay@.subrange(i as int, i + needle@.len()) =~= needle@);
    true
}

/// Whether `needle` occurs in `hay`.
fn contains(hay: &Vec<char>, needle: &Vec<char>) -> (b: bool)
    ensures
        b == occurs(hay@, needle@),
{
    if needle.len() > hay.len() {
        return false;
    }
    if needle.len() == 0 {
        assert(hay@.subrange(0, 0 + needle@.len() as int) =~= needle@);
        return true;
    }
    let hl = hay.len();
    let last = hay.len() - needle.len();
    let mut i: usize = 0;
    while i <= last
        invariant
            hl == hay@.len(),
            needle@.len() > 0,
            last + needle@.len() == hay@.len(),
            i <= last + 1,
            forall|j: int| 0 <= j < i ==> #[trigger] hay@.subrange(j, j + needle@.len()) != needle@,
        decreases last + 1 - i,
    {
        if occurs_at(hay, needle, i) {
            return true;
        }
        i = i + 1;
    }
    false
}

/// All characters of a line, in order.
pub fn line_text(line: &Line) -> (s: String)
    ensures
        s@ == runs_text(line@),
{
    let mut s = String::new();
    let mut i: usize = 0;
    let ghost rv = line@;
    assert(rv.take(0) =~= Seq::<Run>::empty());
    while i < line.runs.len()
        invariant
            rv == runs_view(line.runs@),
            i <= line.runs.len(),
            s@ == runs_text(rv.take(i as int)),
        decreases line.runs.len() - i,
    {
        proof {
            assert(rv.take(i + 1).drop_last() =~= rv.take(i as int));
        }
        s.append(line.runs[i].text.as_str());
        i = i + 1;
    }
    assert(rv.take(i as int) =~= rv);
    s
}

/// Whether a line contains the query, ignoring case; there is no match
/// without a query or for an empty one.
pub open spec fn line_matches_spec(line: Seq<Run>, q: Option<Seq<char>>) -> bool {
    match q {
        Some(q) => q.len() > 0 && occurs(str_lowercase(runs_text(line)), str_lowercase(q)),
        None => false,
    }
}

pub fn line_matches(line: &Line, q: Option<&str>) -> (b: bool)
    ensures
        b == line_matches_spec(
            line@,
            match q {
                Some(s) => Some(s@),
                None => None,
            },
        ),
{
    match q {
        None => false,
        Some(q) => {
            if q.is_empty() {
                return false;
            }
            let plain = line_text(line);
            let hay = chars_of(lowercase(plain.as_str()).as_str());
            let needle = chars_of(lowercase(q).as_str());
            contains(&hay, &needle)
        },
    }
}

/// Whether the query matches the text at position `i`, comparing the
/// lowercase form of each character.
pub open spec fn matches_at(text: Seq<char>, q: Seq<char>, i: int) -> bool {
    forall|k: int|
        0 <= k < q.len() ==> #[trigger] char_lowercase(text[i + k]) == char_lowercase(q[k])
}

/// Non-overlapping matches of `q` in `text` from position `i` on, scanning
/// left to right and resuming after each match.
pub open spec fn scan_matches(text: Seq<char>, q: Seq<char>, i: nat) -> Seq<(usize, usize)>
    decreases text.len() - i,
{
    if q.len() == 0 || i + q.len() > text.len() {
        Seq::empty()
    } else if matches_at(text, q, i as int) {
        seq![(i as usize, (i + q.len()) as usize)] + scan_matches(text, q, i + q.len())
    } else {
        scan_matches(text, q, i + 1)
    }
}

fn matches_here(chars: &Vec<char>, qchars: &Vec<char>, i: usize) -> (ok: bool)
    requires
        i + qchars@.len() <= chars@.len(),
    ensures
        ok == matches_at(chars@, qchars@, i as int),
{
    let n = chars.len();
    let mut k: usize = 0;
    while k < qchars.len()
        invariant
            n == chars@.len(),
            i + qchars@.len() <= chars@.len(),
            k <= qchars@.len(),
            forall|j: int|
                0 <= j < k ==> #[trigger] char_lowercase(chars@[i + j]) == char_lowercase(qchars@[j]),
        decreases qchars.len() - k,
    {
        let a = lower_char(chars[i + k]);
        let b = lower_char(qchars[k]);
        if a != b {
            return false;
        }
        k = k + 1;
    }
    true
}

/// Character-index ranges of a case-insensitive query within a line.
pub fn find_matches(line: &Line, q: &str) -> (res: Vec<(usize, usize)>)
    ensures
        res@ == scan_matches(runs_text(line@), q@, 0),
{
    let mut res: Vec<(usize, usize)> = Vec::new();
    let qchars = chars_of(q);
    if qchars.len() == 0 {
        return res;
    }
    let full = line_text(line);
    let chars = chars_of(full.as_str());
    let n = chars.len();
    if n < qchars.len() {
        assert(res@ =~= scan_matches(chars@, qchars@, 0));
        return res;
    }
    let mut i: usize = 0;
    assert(res@ + scan_matches(chars@, qchars@, 0) =~= scan_matches(chars@, qchars@, 0));
    while i <= n - qchars.len()
        invariant
            n == chars@.len(),
            qchars@.len() > 0,
            qchars@.len() <= n,
            i <= n,
            res@ + scan_matches(chars@, qchars@, i as nat) == scan_matches(chars@, qchars@, 0),
        decreases n - i,
    {
        if matches_here(&chars, &qchars, i) {
            let ghost r0 = res@;
            res.push((i, i + qchars.len()));
            assert(res@ + scan_matches(chars@, qchars@, (i + qchars@.len()) as nat) =~= r0
                + scan_matches(chars@, qchars@, i as nat));
            i = i + qchars.len();
        } else {
            i = i + 1;
        }
    }
    assert(scan_matches(chars@, qchars@, i as nat) =~= Seq::<(usize, usize)>::empty());
    assert(res@ =~= res@ + Seq::<(usize, usize)>::empty());
    res
}

} // verus!

verus! {

/// Whether `ranges` are matches of `q` in `text` at or after `i`: each is
/// `q.len()` characters long, lies within the text, matches ignoring case,
/// and starts where the one before it ended or later.
pub open spec fn valid_matches(text: Seq<char>, q: Seq<char>, i: nat, ranges: Seq<(usize, usize)>) -> bool {
    &&& forall|k: int|
        0 <= k < ranges.len() ==> {
            &&& i <= (#[trigger] ranges[k]).0
            &&& ranges[k].1 == ranges[k].0 + q.len()
            &&& ranges[k].1 <= text.len()
            &&& matches_at(text, q, ranges[k].0 as int)
        }
    &&& forall|k: int| 0 <= k < ranges.len() - 1 ==> (#[trigger] ranges[k]).1 <= ranges[k + 1].0
}

proof fn lemma_scan_valid(text: Seq<char>, q: Seq<char>, i: nat)
    requires
        text.len() <= usize::MAX,
    ensures
        valid_matches(text, q, i, scan_matches(text, q, i)),
    decreases text.len() - i,
{
    let r = scan_matches(text, q, i);
    if q.len() == 0 || i + q.len() > text.len() {
    } else if matches_at(text, q, i as int) {
        let j = (i + q.len()) as nat;
        lemma_scan_valid(text, q, j);
        let rest = scan_matches(text, q, j);
        let head = (i as usize, j as usize);
        assert(r == seq![head] + rest);
        assert forall|k: int| 0 <= k < r.len() implies {
            &&& i <= (#[trigger] r[k]).0
            &&& r[k].1 == r[k].0 + q.len()
            &&& r[k].1 <= text.len()
            &&& matches_at(text, q, r[k].0 as int)
        } by {
            if k > 0 {
                assert(r[k] == rest[k - 1]);
            }
        }
        assert forall|k: int| 0 <= k < r.len() - 1 implies (#[trigger] r[k]).1 <= r[k + 1].0 by {
            assert(r[k + 1] == rest[k]);
            if k > 0 {
                assert(r[k] == rest[k - 1]);
            }
        }
    } else {
        lemma_scan_valid(text, q, i + 1);
    }
}

proof fn lemma_scan_covers(text: Seq<char>, q: Seq<char>, i: nat, p: int)
    requires
        text.len() <= usize::MAX,
        i <= p,
        p + q.len() <= text.len(),
        q.len() > 0,
        matches_at(text, q, p),
    ensures
        exists|k: int|
            0 <= k < scan_matches(text, q, i).len() && (#[trigger] scan_matches(text, q, i)[k]).0 <= p
                < scan_matches(text, q, i)[k].1,
    decreases text.len() - i,
{
    let r = scan_matches(text, q, i);
    if matches_at(text, q, i as int) {
        let j = (i + q.len()) as nat;
        let rest = scan_matches(text, q, j);
        let head = (i as usize, j as usize);
        assert(r == seq![head] + rest);
        if p < j {
            assert(r[0] == head);
        } else {
            lemma_scan_covers(text, q, j, p);
            let k2 = choose|k2: int| 0 <= k2 < rest.len() && (#[trigger] rest[k2]).0 <= p < rest[k2].1;
            assert(r[k2 + 1] == rest[k2]);
        }
    } else {
        assert(p != i);
        lemma_scan_covers(text, q, i + 1, p);
    }
}

/// Search highlighting marks exactly the leftmost non-overlapping matches:
/// every range it returns is a match of the query ignoring case, the ranges
/// come in order without overlapping, and every place where the query
/// matches lies inside one of them.
pub proof fn law_find_matches(text: Seq<char>, q: Seq<char>, i: nat)
    requires
        text.len() <= usize::MAX,
    ensures
        valid_matches(text, q, i, scan_matches(text, q, i)),
        forall|p: int|
            i <= p && p + q.len() <= text.len() && q.len() > 0 && #[trigger] matches_at(text, q, p)
                ==> exists|k: int|
                0 <= k < scan_matches(text, q, i).len() && (#[trigger] scan_matches(text, q, i)[k]).0
                    <= p < scan_matches(text, q, i)[k].1,
{
    lemma_scan_valid(text, q, i);
    assert forall|p: int|
        i <= p && p + q.len() <= text.len() && q.len() > 0 && #[trigger] matches_at(text, q, p) implies exists|k: int|
        0 <= k < scan_matches(text, q, i).len() && (#[trigger] scan_matches(text, q, i)[k]).0 <= p
            < scan_matches(text, q, i)[k].1 by {
        lemma_scan_covers(text, q, i, p);
    }
}

} // verus!
