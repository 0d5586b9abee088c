//! The region grammar `<path>:<start>-<stop>`: `path` is one or more
//! characters, `start` one or more decimal digits, and the dash and `stop` may
//! be left out (`stop` then reads as empty). The grammar is greedy in `path`,
//! so the fields follow the last colon of the text.

use vstd::prelude::*;
use crate::digits::{all_digits, is_digit};

verus! {

/// `s` reads under the region grammar as `path`, `start` and `stop`: it is
/// `<path>:<start>-<stop>`, or `<path>:<start>` with `stop` empty.
pub open spec fn region_fields(
    s: Seq<char>,
    path: Seq<char>,
    start: Seq<char>,
    stop: Seq<char>,
) -> bool {
    &&& path.len() > 0
    &&& start.len() > 0
    &&& all_digits(start)
    &&& all_digits(stop)
    &&& (s == path + seq![':'] + start + seq!['-'] + stop || (stop.len() == 0 && s == path
        + seq![':'] + start))
}

/// `s` is a text of the region grammar.
pub open spec fn is_region_text(s: Seq<char>) -> bool {
    exists|path: Seq<char>, start: Seq<char>, stop: Seq<char>|
        region_fields(s, path, start, stop)
}

/// Where the fields of a text of the grammar lie: the colon right after
/// `path` is the last colon, the digits of `start` follow it, then the dash, if
/// any, and the digits of `stop`.
proof fn lemma_fields_layout(s: Seq<char>, path: Seq<char>, start: Seq<char>, stop: Seq<char>)
    requires
        region_fields(s, path, start, stop),
    ensures
        ({
            let c = path.len() as int;
            let e = c + 1 + start.len();
            &&& path == s.subrange(0, c)
            &&& s[c] == ':'
            &&& start == s.subrange(c + 1, e)
            &&& e <= s.len()
            &&& forall|k: int| c < k < e ==> is_digit(#[trigger] s[k])
            &&& forall|k: int| c < k < s.len() ==> #[trigger] s[k] != ':'
            &&& e == s.len() ==> stop.len() == 0
            &&& e < s.len() ==> s[e] == '-' && stop == s.subrange(e + 1, s.len() as int)
            &&& forall|k: int| e < k < s.len() ==> is_digit(#[trigger] s[k])
        }),
{
    let c = path.len() as int;
    let e = c + 1 + start.len();
    if s == path + seq![':'] + start + seq!['-'] + stop {
        assert(s.subrange(0, c) =~= path);
        assert(s.subrange(c + 1, e) =~= start);
        assert(s.subrange(e + 1, s.len() as int) =~= stop);
        assert forall|k: int| e < k < s.len() implies is_digit(#[trigger] s[k]) by {
            assert(s[k] == stop[k - e - 1]);
        }
        assert forall|k: int| c < k < e implies is_digit(#[trigger] s[k]) by {
            assert(s[k] == start[k - c - 1]);
        }
    } else {
        assert(s.subrange(0, c) =~= path);
        assert(s.subrange(c + 1, e) =~= start);
        assert forall|k: int| c < k < e implies is_digit(#[trigger] s[k]) by {
            assert(s[k] == start[k - c - 1]);
        }
    }
}


/// The grammar reads a text in at most one way.
pub proof fn lemma_region_fields_unique(
    s: Seq<char>,
    path1: Seq<char>,
    start1: Seq<char>,
    stop1: Seq<char>,
    path2: Seq<char>,
    start2: Seq<char>,
    stop2: Seq<char>,
)
    requires
        region_fields(s, path1, start1, stop1),
        region_fields(s, path2, start2, stop2),
    ensures
        path1 == path2,
        start1 == start2,
        stop1 == stop2,
{
    lemma_fields_layout(s, path1, start1, stop1);
    lemma_fields_layout(s, path2, start2, stop2);
    let c1 = path1.len() as int;
    let c2 = path2.len() as int;
    if c1 < c2 {
        assert(s[c2] != ':');
    }
    if c2 < c1 {
        assert(s[c1] != ':');
    }
    let e1 = c1 + 1 + start1.len();
    let e2 = c1 + 1 + start2.len();
    if e1 < e2 {
        assert(is_digit(s[e1]));
    }
    if e2 < e1 {
        assert(is_digit(s[e2]));
    }
}

/// The characters of `s`, in order.
pub fn chars_of(s: &str) -> (v: Vec<char>)
    ensures
        v@ == s@,
{
    broadcast use vstd::string::axiom_spec_iter;

    let mut v: Vec<char> = Vec::new();
    for c in it: s.chars()
        invariant
            it.seq() == s@,
            v@ == it.seq().take(it.index()),
    {
        v.push(c);
    }
    v
}

/// Where the fields of `v` lie under the region grammar: the colon, the end of
/// `start`, and the beginning of `stop`; `None` where `v` is not a text of the
/// grammar.
pub fn split_fields(v: &Vec<char>) -> (r: Option<(usize, usize, usize)>)
    ensures
        r is None <==> !is_region_text(v@),
        r matches Some((c, e, f)) ==> {
            &&& c < e <= f <= v@.len()
            &&& region_fields(
                v@,
                v@.subrange(0, c as int),
                v@.subrange(c + 1, e as int),
                v@.subrange(f as int, v@.len() as int),
            )
        },
{
    let n = v.len();
    let mut i: usize = n;
    while i > 0 && v[i - 1] != ':'
        invariant
            i <= n == v@.len(),
            forall|k: int| i <= k < n ==> v@[k] != ':',
        decreases i,
    {
        i = i - 1;
    }
    if i <= 1 {
        proof {
            if is_region_text(v@) {
                let (p, a, b) = choose|p: Seq<char>, a: Seq<char>, b: Seq<char>|
                    region_fields(v@, p, a, b);
                lemma_fields_layout(v@, p, a, b);
                if i == 1 {
                    assert(v@[p.len() as int] == ':');
                }
            }
        }
        return None;
    }
    let c = i - 1;
    let mut j: usize = i;
    while j < n && '0' <= v[j] && v[j] <= '9'
        invariant
            c < j <= n == v@.len(),
            forall|k: int| c < k < j ==> is_digit(#[trigger] v@[k]),
        decreases n - j,
    {
        j = j + 1;
    }
    let ghost s = v@;
    // Where a reading exists, its colon is `c` and its `start` ends at `j`.
    proof {
        if is_region_text(s) {
            let (p, a, b) = choose|p: Seq<char>, a: Seq<char>, b: Seq<char>|
                region_fields(s, p, a, b);
            lemma_fields_layout(s, p, a, b);
            let c2 = p.len() as int;
            if c2 < c {
                assert(s[c as int] != ':');
            }
            if c < c2 {
                assert(s[c2] != ':');
            }
            let e2 = c2 + 1 + a.len();
            if e2 < j {
                assert(is_digit(s[e2]));
            }
            if j < e2 {
                assert(is_digit(s[j as int]));
            }
        }
    }
    if j == c + 1 {
        proof {
            if is_region_text(s) {
                let (p, a, b) = choose|p: Seq<char>, a: Seq<char>, b: Seq<char>|
                    region_fields(s, p, a, b);
                lemma_fields_layout(s, p, a, b);
            }
        }
        return None;
    }
    if j == n {
        proof {
            let p = s.subrange(0, c as int);
            let a = s.subrange(c + 1, n as int);
            assert(s =~= p + seq![':'] + a);
            assert(region_fields(s, p, a, s.subrange(n as int, n as int)));
        }
        return Some((c, j, n));
    }
    if v[j] != '-' {
        proof {
            if is_region_text(s) {
                let (p, a, b) = choose|p: Seq<char>, a: Seq<char>, b: Seq<char>|
                    region_fields(s, p, a, b);
                lemma_fields_layout(s, p, a, b);
            }
        }
        return None;
    }
    let mut k: usize = j + 1;
    while k < n && '0' <= v[k] && v[k] <= '9'
        invariant
            j < k <= n == v@.len(),
            forall|m: int| j < m < k ==> is_digit(#[trigger] v@[m]),
        decreases n - k,
    {
        k = k + 1;
    }
    if k < n {
        proof {
            if is_region_text(s) {
                let (p, a, b) = choose|p: Seq<char>, a: Seq<char>, b: Seq<char>|
                    region_fields(s, p, a, b);
                lemma_fields_layout(s, p, a, b);
                assert(is_digit(s[k as int]));
            }
        }
        return None;
    }
    proof {
        let p = s.subrange(0, c as int);
        let a = s.subrange(c + 1, j as int);
        let b = s.subrange(j + 1, n as int);
        assert(s =~= p + seq![':'] + a + seq!['-'] + b);
        assert(all_digits(b)) by {
            assert forall|m: int| 0 <= m < b.len() implies is_digit(#[trigger] b[m]) by {
                assert(b[m] == s[j + 1 + m]);
            }
        }
        assert(all_digits(a)) by {
            assert forall|m: int| 0 <= m < a.len() implies is_digit(#[trigger] a[m]) by {
                assert(a[m] == s[c + 1 + m]);
            }
        }
        assert(region_fields(s, p, a, b));
    }
    Some((c, j, j + 1))
}

} // verus!
