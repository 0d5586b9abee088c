//! The `Region` value type.

use vstd::prelude::*;
use vstd::utf8::encode_utf8;
use crate::digits::{decimal, digits_to_u64, digits_value, lemma_decimal_value, push_decimal};
use crate::grammar::{
    chars_of, is_region_text, lemma_region_fields_unique, region_fields, split_fields,
};

verus! {

/// A named interval on a sequence. `start > stop` marks a region in reverse
/// orientation.
#[derive(Debug, Clone, PartialEq, Eq, Hash)]
pub struct Region {
    pub path: String,
    pub start: u64,
    pub stop: u64,
}

/// Why a text is not a region.
#[derive(Debug, Clone, PartialEq, Eq, Hash)]
pub enum RegionError {
    /// The text is not `<path>:<start>-<stop>` (nor `<path>:<start>`).
    MalformedRegion,
    /// A coordinate field is empty or does not fit in a `u64`; the field's text
    /// is carried.
    InvalidCoordinate(String),
}

/// A coordinate field that holds a `u64`: one or more digits whose value
/// fits.
pub open spec fn coordinate_fits(t: Seq<char>) -> bool {
    t.len() > 0 && digits_value(t) <= u64::MAX
}

/// The length of the UTF-8 encoding of `s`.
pub open spec fn byte_len(s: Seq<char>) -> nat {
    encode_utf8(s).len()
}

/// The prefix stripped when no other is asked for.
pub open spec fn chr() -> Seq<char> {
    seq!['c', 'h', 'r']
}

/// `path` with a leading `prefix` removed, if it has one.
pub open spec fn strip_prefix(path: Seq<char>, prefix: Seq<char>) -> Seq<char> {
    if prefix.len() <= path.len() && path.subrange(0, prefix.len() as int) == prefix {
        path.subrange(prefix.len() as int, path.len() as int)
    } else {
        path
    }
}

/// The path stored for the path field `path` under the chromosome prefix
/// `prefix`. With no prefix a leading `chr` goes. Otherwise the prefix goes,
/// and comes back in front where what is left is shorter, in bytes, than the
/// prefix.
pub open spec fn normalized_path(path: Seq<char>, prefix: Seq<char>) -> Seq<char> {
    if prefix.len() == 0 {
        strip_prefix(path, chr())
    } else if byte_len(strip_prefix(path, prefix)) < byte_len(prefix) {
        prefix + strip_prefix(path, prefix)
    } else {
        strip_prefix(path, prefix)
    }
}

/// `r` is what parsing the text `s` gives, where `stored_path` makes the
/// stored path out of the path field. A text outside the grammar is
/// malformed. Otherwise its fields are read, and the first coordinate field
/// that holds no `u64` is reported; where both hold one, the region is built.
pub open spec fn parse_outcome(
    s: Seq<char>,
    r: Result<Region, RegionError>,
    stored_path: spec_fn(Seq<char>) -> Seq<char>,
) -> bool {
    match r {
        Ok(region) => exists|path: Seq<char>, start: Seq<char>, stop: Seq<char>|
            {
                &&& region_fields(s, path, start, stop)
                &&& coordinate_fits(start)
                &&& coordinate_fits(stop)
                &&& region.path@ == stored_path(path)
                &&& region.start == digits_value(start)
                &&& region.stop == digits_value(stop)
            },
        Err(RegionError::MalformedRegion) => !is_region_text(s),
        Err(RegionError::InvalidCoordinate(field)) => exists|
            path: Seq<char>,
            start: Seq<char>,
            stop: Seq<char>,
        |
            {
                &&& region_fields(s, path, start, stop)
                &&& if coordinate_fits(start) {
                    !coordinate_fits(stop) && field@ == stop
                } else {
                    field@ == start
                }
            },
    }
}

/// The canonical text of a region: `<path>:<start>-<stop>`, with the
/// coordinates in canonical decimal.
pub open spec fn region_text(path: Seq<char>, start: u64, stop: u64) -> Seq<char> {
    path + seq![':'] + decimal(start as nat) + seq!['-'] + decimal(stop as nat)
}

/// Parsing a text that is in canonical form succeeds, with the fields that the
/// text shows, and the canonical text of the result is that text again.
pub proof fn lemma_canonical_round_trip(
    s: Seq<char>,
    path: Seq<char>,
    start: u64,
    stop: u64,
    r: Result<Region, RegionError>,
)
    requires
        path.len() > 0,
        s == region_text(path, start, stop),
        parse_outcome(s, r, |p: Seq<char>| p),
    ensures
        r matches Ok(region) && region.path@ == path && region.start == start && region.stop
            == stop && region_text(region.path@, region.start, region.stop) == s,
{
    let a = decimal(start as nat);
    let b = decimal(stop as nat);
    lemma_decimal_value(start as nat);
    lemma_decimal_value(stop as nat);
    assert(region_fields(s, path, a, b));
    match r {
        Ok(region) => {
            let (p2, a2, b2) = choose|p2: Seq<char>, a2: Seq<char>, b2: Seq<char>|
                {
                    &&& region_fields(s, p2, a2, b2)
                    &&& coordinate_fits(a2)
                    &&& coordinate_fits(b2)
                    &&& region.path@ == (|p: Seq<char>| p)(p2)
                    &&& region.start == digits_value(a2)
                    &&& region.stop == digits_value(b2)
                };
            lemma_region_fields_unique(s, path, a, b, p2, a2, b2);
        },
        Err(RegionError::MalformedRegion) => {},
        Err(RegionError::InvalidCoordinate(field)) => {
            let (p2, a2, b2) = choose|p2: Seq<char>, a2: Seq<char>, b2: Seq<char>|
                {
                    &&& region_fields(s, p2, a2, b2)
                    &&& if coordinate_fits(a2) {
                        !coordinate_fits(b2) && field@ == b2
                    } else {
                        field@ == a2
                    }
                };
            lemma_region_fields_unique(s, path, a, b, p2, a2, b2);
        },
    }
}

/// Parsing with a chromosome prefix succeeds and fails on the same texts as
/// parsing without one, with the same errors and coordinates; only the stored
/// path differs, by normalisation.
pub proof fn lemma_prefix_parse_agrees(
    s: Seq<char>,
    prefix: Seq<char>,
    plain: Result<Region, RegionError>,
    prefixed: Result<Region, RegionError>,
)
    requires
        parse_outcome(s, plain, |p: Seq<char>| p),
        parse_outcome(s, prefixed, |p: Seq<char>| normalized_path(p, prefix)),
    ensures
        plain is Ok <==> prefixed is Ok,
        plain == Err::<Region, RegionError>(RegionError::MalformedRegion) <==> prefixed == Err::<
            Region,
            RegionError,
        >(RegionError::MalformedRegion),
        plain matches Err(RegionError::InvalidCoordinate(f)) ==> prefixed matches Err(
            RegionError::InvalidCoordinate(g),
        ) && f@ == g@,
        plain matches Ok(a) ==> prefixed matches Ok(b) && b.path@ == normalized_path(a.path@, prefix)
            && b.start == a.start && b.stop == a.stop,
{
    if is_region_text(s) {
        let (p, a, b) = choose|p: Seq<char>, a: Seq<char>, b: Seq<char>| region_fields(s, p, a, b);
        // Every reading that either outcome names is this one.
        assert forall|p2: Seq<char>, a2: Seq<char>, b2: Seq<char>|
            region_fields(s, p2, a2, b2) implies p2 == p && a2 == a && b2 == b by {
            lemma_region_fields_unique(s, p, a, b, p2, a2, b2);
        }
    }
}

/// Reads the fields of `text`, whose characters are `v`: where the path field
/// ends, and the two coordinates.
fn read_fields(text: &str, v: &Vec<char>) -> (r: Result<(usize, u64, u64), RegionError>)
    requires
        v@ == text@,
    ensures
        match r {
            Ok((c, start, stop)) => c <= text@.len() && exists|a: Seq<char>, b: Seq<char>|
                {
                    &&& region_fields(text@, text@.subrange(0, c as int), a, b)
                    &&& coordinate_fits(a)
                    &&& coordinate_fits(b)
                    &&& start == digits_value(a)
                    &&& stop == digits_value(b)
                },
            Err(RegionError::MalformedRegion) => !is_region_text(text@),
            Err(RegionError::InvalidCoordinate(field)) => exists|
                path: Seq<char>,
                start: Seq<char>,
                stop: Seq<char>,
            |
                {
                    &&& region_fields(text@, path, start, stop)
                    &&& if coordinate_fits(start) {
                        !coordinate_fits(stop) && field@ == stop
                    } else {
                        field@ == start
                    }
                },
        },
{
    let (c, e, f) = match split_fields(v) {
        Some(fields) => fields,
        None => {
            return Err(RegionError::MalformedRegion);
        },
    };
    let n = v.len();
    let ghost p = text@.subrange(0, c as int);
    let ghost a = text@.subrange(c + 1, e as int);
    let ghost b = text@.subrange(f as int, n as int);
    let start = match digits_to_u64(v, c + 1, e) {
        Some(x) => x,
        None => {
            let field = String::from_str(text.substring_char(c + 1, e));
            assert(region_fields(text@, p, a, b));
            return Err(RegionError::InvalidCoordinate(field));
        },
    };
    let stop = match digits_to_u64(v, f, n) {
        Some(x) => x,
        None => {
            let field = String::from_str(text.substring_char(f, n));
            assert(region_fields(text@, p, a, b));
            return Err(RegionError::InvalidCoordinate(field));
        },
    };
    assert(region_fields(text@, p, a, b));
    Ok((c, start, stop))
}

/// Whether `s` begins with `prefix`.
fn has_prefix(s: &str, prefix: &str) -> (r: bool)
    ensures
        r == (prefix@.len() <= s@.len() && s@.subrange(0, prefix@.len() as int) == prefix@),
{
    let v = chars_of(s);
    let w = chars_of(prefix);
    if w.len() > v.len() {
        return false;
    }
    let mut i: usize = 0;
    while i < w.len()
        invariant
            v@ == s@,
            w@ == prefix@,
            w@.len() <= v@.len(),
            i <= w@.len(),
            forall|k: int| 0 <= k < i ==> v@[k] == w@[k],
        decreases w.len() - i,
    {
        if v[i] != w[i] {
            assert(s@.subrange(0, prefix@.len() as int)[i as int] != prefix@[i as int]);
            return false;
        }
        i = i + 1;
    }
    assert(s@.subrange(0, prefix@.len() as int) =~= prefix@);
    true
}

/// The stored path for the path field `field` under the chromosome prefix
/// `prefix`.
fn normalize_path(field: &str, prefix: &str) -> (r: String)
    ensures
        r@ == normalized_path(field@, prefix@),
{
    if prefix.is_empty() {
        let chr_text = "chr";
        proof {
            reveal_strlit("chr");
            assert(chr_text@ =~= chr());
            assert(chr().len() == 3);
        }
        if has_prefix(field, chr_text) {
            String::from_str(field.substring_char(3, field.unicode_len()))
        } else {
            String::from_str(field)
        }
    } else {
        let rest: &str = if has_prefix(field, prefix) {
            field.substring_char(prefix.unicode_len(), field.unicode_len())
        } else {
            field
        };
        if rest.as_bytes().len() < prefix.as_bytes().len() {
            String::from_str(prefix).concat(rest)
        } else {
            String::from_str(rest)
        }
    }
}

impl Region {
    /// Parses `<path>:<start>-<stop>`, keeping the path field as it stands.
    pub fn new(path: String) -> (r: Result<Region, RegionError>)
        ensures
            parse_outcome(path@, r, |p: Seq<char>| p),
    {
        let text = path.as_str();
        let v = chars_of(text);
        match read_fields(text, &v) {
            Ok((c, start, stop)) => {
                let region = Region { path: String::from_str(text.substring_char(0, c)), start, stop };
                let ghost p = text@.subrange(0, c as int);
                assert(region.path@ == (|q: Seq<char>| q)(p));
                Ok(region)
            },
            Err(e) => Err(e),
        }
    }

    /// Parses `<path>:<start>-<stop>` as `new` does, and stores the path field
    /// normalised to the chromosome prefix `chr_prefix`.
    pub fn new_with_prefix(path: String, chr_prefix: &str) -> (r: Result<Region, RegionError>)
        ensures
            parse_outcome(path@, r, |p: Seq<char>| normalized_path(p, chr_prefix@)),
    {
        let text = path.as_str();
        let v = chars_of(text);
        match read_fields(text, &v) {
            Ok((c, start, stop)) => {
                let stored = normalize_path(text.substring_char(0, c), chr_prefix);
                let region = Region { path: stored, start, stop };
                let ghost p = text@.subrange(0, c as int);
                assert(region.path@ == (|q: Seq<char>| normalized_path(q, chr_prefix@))(p));
                Ok(region)
            },
            Err(e) => Err(e),
        }
    }

    /// The distance between `start` and `stop`, whichever way round they are.
    pub fn interval(&self) -> (r: u64)
        ensures
            r as int == if self.start > self.stop {
                self.start - self.stop
            } else {
                self.stop - self.start
            },
    {
        if self.inverted() {
            self.start - self.stop
        } else {
            self.stop - self.start
        }
    }

    /// Whether the region runs in reverse: `start` strictly after `stop`. A
    /// region whose ends coincide is not inverted.
    pub fn inverted(&self) -> (r: bool)
        ensures
            r == (self.start > self.stop),
            self.start == self.stop ==> !r,
    {
        self.start > self.stop
    }

    /// Moves `start` back by one, turning a 1-based inclusive start into a
    /// 0-based one.
    pub fn start_minus(&mut self)
        requires
            old(self).start >= 1,
        ensures
            final(self).start == old(self).start - 1,
            final(self).stop == old(self).stop,
            final(self).path == old(self).path,
    {
        self.start = self.start - 1;
    }

    /// The canonical text `<path>:<start>-<stop>`.
    pub fn canonical_text(&self) -> (r: String)
        ensures
            r@ == region_text(self.path@, self.start, self.stop),
    {
        let mut out = String::from_str(self.path.as_str());
        let colon = ":";
        let dash = "-";
        proof {
            reveal_strlit(":");
            reveal_strlit("-");
        }
        out.append(colon);
        push_decimal(&mut out, self.start);
        out.append(dash);
        push_decimal(&mut out, self.stop);
        out
    }

    /// An identifier of the region: its canonical text.
    pub fn uuid(&self) -> (r: String)
        ensures
            r@ == region_text(self.path@, self.start, self.stop),
    {
        self.canonical_text()
    }
}

} // verus!
