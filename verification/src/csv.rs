//! Comma-separated text: finding separators, splitting on them, and
//! trimming incidental whitespace around cells.

use vstd::prelude::*;
use vstd::string::StrSliceExecFns;

verus! {

/// The position of the first `c`, or `-1` where there is none.
pub open spec fn find_char(s: Seq<char>, c: char) -> int
    decreases s.len(),
{
    if s.len() == 0 {
        -1
    } else if s[0] == c {
        0
    } else {
        let r = find_char(s.subrange(1, s.len() as int), c);
        if r < 0 {
            -1
        } else {
            r + 1
        }
    }
}

/// What `find_char` finds: the first occurrence, if any.
pub proof fn lemma_find_char(s: Seq<char>, c: char)
    ensures
        find_char(s, c) == -1 ==> forall|i: int| 0 <= i < s.len() ==> s[i] != c,
        find_char(s, c) >= 0 ==> 0 <= find_char(s, c) < s.len() && s[find_char(s, c)] == c
            && forall|j: int| 0 <= j < find_char(s, c) ==> s[j] != c,
    decreases s.len(),
{
    if s.len() == 0 {
    } else if s[0] == c {
    } else {
        let t = s.subrange(1, s.len() as int);
        lemma_find_char(t, c);
        if find_char(s, c) == -1 {
            assert forall|i: int| 0 <= i < s.len() implies s[i] != c by {
                if i >= 1 {
                    assert(s[i] == t[i - 1]);
                }
            }
        } else {
            let d = find_char(s, c);
            assert(s[d] == t[d - 1]);
            assert forall|j: int| 0 <= j < d implies s[j] != c by {
                if j >= 1 {
                    assert(s[j] == t[j - 1]);
                }
            }
        }
    }
}

/// `find_char` is pinned by any witness of a first occurrence.
pub proof fn lemma_find_char_at(s: Seq<char>, c: char, d: int)
    requires
        0 <= d < s.len(),
        s[d] == c,
        forall|j: int| 0 <= j < d ==> s[j] != c,
    ensures
        find_char(s, c) == d,
    decreases s.len(),
{
    if d == 0 {
    } else {
        let t = s.subrange(1, s.len() as int);
        assert(forall|i: int| 0 <= i < t.len() ==> t[i] == s[i + 1]);
        lemma_find_char_at(t, c, d - 1);
    }
}

/// `find_char` misses, where nothing occurs.
pub proof fn lemma_find_char_none(s: Seq<char>, c: char)
    requires
        forall|j: int| 0 <= j < s.len() ==> s[j] != c,
    ensures
        find_char(s, c) == -1,
{
    lemma_find_char(s, c);
    if find_char(s, c) >= 0 {
        assert(s[find_char(s, c)] == c);
    }
}

/// The pieces of `s` between occurrences of `sep`: one more piece than
/// there are separators, in order, each free of the separator.
pub open spec fn split_spec(s: Seq<char>, sep: char) -> Seq<Seq<char>>
    decreases s.len(),
    via split_spec_decreases
{
    let i = find_char(s, sep);
    if i < 0 {
        seq![s]
    } else {
        seq![s.subrange(0, i)] + split_spec(s.subrange(i + 1, s.len() as int), sep)
    }
}

#[via_fn]
proof fn split_spec_decreases(s: Seq<char>, sep: char) {
    lemma_find_char(s, sep);
}

/// A split is never empty: there is always a first piece.
pub proof fn lemma_split_nonempty(s: Seq<char>, sep: char)
    ensures
        split_spec(s, sep).len() >= 1,
{
    lemma_find_char(s, sep);
}

/// Split a string on a separator character.
pub fn split_char<'a>(s: &'a str, sep: char) -> (r: Vec<&'a str>)
    ensures
        r@.len() == split_spec(s@, sep).len(),
        forall|i: int| 0 <= i < r@.len() ==> (#[trigger] r@[i])@ == split_spec(s@, sep)[i],
{
    let n = s.unicode_len();
    let mut r: Vec<&'a str> = Vec::new();
    let mut p: usize = 0;
    let mut i: usize = 0;
    proof {
        assert(s@.subrange(0, n as int) =~= s@);
    }
    while i < n
        invariant
            0 <= p <= i <= n,
            n == s@.len(),
            forall|j: int| p <= j < i ==> s@[j] != sep,
            split_spec(s@, sep) =~= r@.map_values(|t: &str| t@) + split_spec(
                s@.subrange(p as int, n as int),
                sep,
            ),
        decreases n - i,
    {
        let c = s.get_char(i);
        if c == sep {
            let piece = s.substring_char(p, i);
            proof {
                let rest = s@.subrange(p as int, n as int);
                assert(forall|j: int| 0 <= j < rest.len() ==> rest[j] == s@[j + p]);
                lemma_find_char_at(rest, sep, i - p);
                assert(rest.subrange(0, i - p) =~= s@.subrange(p as int, i as int));
                assert(rest.subrange(i - p + 1, rest.len() as int) =~= s@.subrange(
                    i + 1,
                    n as int,
                ));
                let m0 = r@.map_values(|t: &str| t@);
                let m1 = r@.push(piece).map_values(|t: &str| t@);
                assert(m1 =~= m0.push(piece@));
            }
            r.push(piece);
            p = i + 1;
        }
        i = i + 1;
    }
    let last = s.substring_char(p, n);
    proof {
        let rest = s@.subrange(p as int, n as int);
        assert(forall|j: int| 0 <= j < rest.len() ==> rest[j] == s@[j + p]);
        lemma_find_char_none(rest, sep);
        let m0 = r@.map_values(|t: &str| t@);
        let m1 = r@.push(last).map_values(|t: &str| t@);
        assert(m1 =~= m0.push(last@));
        assert(split_spec(s@, sep) =~= m1);
    }
    r.push(last);
    r
}

/// Whether `c` is incidental whitespace around a cell.
pub open spec fn is_ws(c: char) -> bool {
    c == ' ' || c == '\t' || c == '\r'
}

/// The position of the first character that is not whitespace, or the
/// length.
pub open spec fn first_solid(s: Seq<char>) -> int
    decreases s.len(),
{
    if s.len() == 0 {
        0
    } else if !is_ws(s[0]) {
        0
    } else {
        1 + first_solid(s.subrange(1, s.len() as int))
    }
}

/// One past the last character that is not whitespace, or zero.
pub open spec fn last_solid(s: Seq<char>) -> int
    decreases s.len(),
{
    if s.len() == 0 {
        0
    } else if !is_ws(s.last()) {
        s.len() as int
    } else {
        last_solid(s.drop_last())
    }
}

/// `s` with leading and trailing whitespace dropped.
pub open spec fn trim_spec(s: Seq<char>) -> Seq<char> {
    if first_solid(s) >= last_solid(s) {
        Seq::empty()
    } else {
        s.subrange(first_solid(s), last_solid(s))
    }
}

/// `first_solid` is pinned by a scan's outcome.
proof fn lemma_first_solid_at(s: Seq<char>, a: int)
    requires
        0 <= a <= s.len(),
        forall|j: int| 0 <= j < a ==> is_ws(s[j]),
        a < s.len() ==> !is_ws(s[a]),
    ensures
        first_solid(s) == a,
    decreases s.len(),
{
    if s.len() == 0 {
    } else if a == 0 {
    } else {
        let t = s.subrange(1, s.len() as int);
        assert(forall|i: int| 0 <= i < t.len() ==> t[i] == s[i + 1]);
        lemma_first_solid_at(t, a - 1);
    }
}

/// `last_solid` is pinned by a scan's outcome.
proof fn lemma_last_solid_at(s: Seq<char>, b: int)
    requires
        0 <= b <= s.len(),
        forall|j: int| b <= j < s.len() ==> is_ws(s[j]),
        b > 0 ==> !is_ws(s[b - 1]),
    ensures
        last_solid(s) == b,
    decreases s.len(),
{
    if s.len() == 0 {
    } else if b == s.len() {
    } else {
        assert(is_ws(s.last()));
        let t = s.drop_last();
        assert(forall|i: int| 0 <= i < t.len() ==> t[i] == s[i]);
        lemma_last_solid_at(t, b);
    }
}

/// Drop leading and trailing whitespace.
pub fn trim(s: &str) -> (r: &str)
    ensures
        r@ == trim_spec(s@),
{
    let n = s.unicode_len();
    let mut a: usize = 0;
    while a < n
        invariant_except_break
            0 <= a <= n,
            n == s@.len(),
            forall|j: int| 0 <= j < a ==> is_ws(s@[j]),
        ensures
            0 <= a <= n,
            n == s@.len(),
            forall|j: int| 0 <= j < a ==> is_ws(s@[j]),
            a < n ==> !is_ws(s@[a as int]),
        decreases n - a,
    {
        let c = s.get_char(a);
        if !(c == ' ' || c == '\t' || c == '\r') {
            break;
        }
        a = a + 1;
    }
    let mut b: usize = n;
    while b > a
        invariant_except_break
            a <= b <= n,
            n == s@.len(),
            forall|j: int| b <= j < n ==> is_ws(s@[j]),
        ensures
            a <= b <= n,
            n == s@.len(),
            forall|j: int| b <= j < n ==> is_ws(s@[j]),
            b > a ==> !is_ws(s@[b - 1]),
        decreases b,
    {
        let c = s.get_char(b - 1);
        if !(c == ' ' || c == '\t' || c == '\r') {
            break;
        }
        b = b - 1;
    }
    if b == a {
        proof {
            // only an all-whitespace string scans down to `a`
            assert(a == n);
            lemma_first_solid_at(s@, n as int);
            lemma_last_solid_at(s@, 0);
        }
        let r = s.substring_char(0, 0);
        proof {
            assert(r@ =~= trim_spec(s@));
        }
        r
    } else {
        proof {
            lemma_first_solid_at(s@, a as int);
            lemma_last_solid_at(s@, b as int);
        }
        let r = s.substring_char(a, b);
        r
    }
}

} // verus!
