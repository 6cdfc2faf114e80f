//! The configuration model: retention buckets, filters and the directory
//! policy tree with its per-entry dispatch.
use vstd::prelude::*;
use vstd::utf8::{decode_utf8, encode_utf8, valid_utf8};
use crate::backup::{copy_bytes, utf8_text, EntryKind, OutputAction, SourceEntry};
use crate::compression::{extension_bytes, CompressionAlgorithm};
use crate::copy::{copy_result, created, CopyOutputStream};
use crate::hardlink::{ChangeDetectionMethod, HardLinkOutputStream};
use crate::json::{
    get, str_from_json_prop, str_from_opt_json_prop, uint_from_json_prop, uint_from_opt_json_prop,
    uint_prop, get_spec, member_value, Json,
};
use crate::text::{lower_of, lowercase, str_eq};
use crate::path::{
    appended, components, components_of, join_all, join_path, joined, join_segments, named, named_segments,
    segments,
};

verus! {

/// A retention bucket: keep up to `count` snapshots, each at least `timespan`
/// seconds older than the one kept before it.
#[derive(Clone, Copy, Debug, PartialEq, Eq, Structural)]
pub struct KeepLimit {
    pub count: u64,
    pub timespan: u64,
}

/// How much the program reports.
#[derive(Clone, Copy, Debug, PartialEq, Eq, Structural)]
pub enum Verbosity {
    Silent,
    Error,
    Warning,
    Verbose,
    Debug,
}

/// The verbosity a configuration word names (already lower-cased).
pub open spec fn verbosity_named(word: Seq<char>) -> Option<Verbosity> {
    if word == "silent"@ {
        Some(Verbosity::Silent)
    } else if word == "debug"@ {
        Some(Verbosity::Debug)
    } else if word == "verbose"@ {
        Some(Verbosity::Verbose)
    } else if word == "warning"@ {
        Some(Verbosity::Warning)
    } else if word == "error"@ {
        Some(Verbosity::Error)
    } else {
        None
    }
}

/// The verbosity named by a configuration word, in any case.
pub fn log_level_from_str(s: &str) -> (r: Result<Verbosity, ParseError>)
    ensures
        r matches Ok(v) ==> verbosity_named(lower_of(s@)) == Some(v),
        r matches Err(e) ==> verbosity_named(lower_of(s@)) is None && (e matches ParseError::UnknownOption(w) && w@ == lower_of(s@)),
{
    let w = lowercase(s);
    if str_eq(w.as_str(), "silent") {
        Ok(Verbosity::Silent)
    } else if str_eq(w.as_str(), "debug") {
        Ok(Verbosity::Debug)
    } else if str_eq(w.as_str(), "verbose") {
        Ok(Verbosity::Verbose)
    } else if str_eq(w.as_str(), "warning") {
        Ok(Verbosity::Warning)
    } else if str_eq(w.as_str(), "error") {
        Ok(Verbosity::Error)
    } else {
        Err(ParseError::UnknownOption(w))
    }
}

/// The detection method a configuration word names (already lower-cased).
pub open spec fn detection_named(word: Seq<char>) -> Option<ChangeDetectionMethod> {
    if word == "timestamp"@ {
        Some(ChangeDetectionMethod::Timestamp)
    } else if word == "full"@ {
        Some(ChangeDetectionMethod::FullCompare)
    } else {
        None
    }
}

impl ChangeDetectionMethod {
    /// The method named by a configuration word, in any case.
    pub fn from_str(s: &str) -> (r: Result<ChangeDetectionMethod, ParseError>)
        ensures
            r matches Ok(m) ==> detection_named(lower_of(s@)) == Some(m),
            r matches Err(e) ==> detection_named(lower_of(s@)) is None && (e matches ParseError::UnknownOption(w) && w@ == lower_of(s@)),
    {
        let w = lowercase(s);
        if str_eq(w.as_str(), "timestamp") {
            Ok(ChangeDetectionMethod::Timestamp)
        } else if str_eq(w.as_str(), "full") {
            Ok(ChangeDetectionMethod::FullCompare)
        } else {
            Err(ParseError::UnknownOption(w))
        }
    }
}

/// Buckets in the order pruning takes them: shorter timespan first, and for
/// equal timespans the larger count first.
pub open spec fn keep_le(a: KeepLimit, b: KeepLimit) -> bool {
    a.timespan < b.timespan || (a.timespan == b.timespan && a.count >= b.count)
}

pub open spec fn keep_sorted(s: Seq<KeepLimit>) -> bool {
    forall|i: int, j: int| 0 <= i < j < s.len() ==> keep_le(#[trigger] s[i], #[trigger] s[j])
}

/// The seconds that the units of a timespan object add up to; months count
/// 30 days and years 365. `None` where a unit is not an unsigned integer.
pub open spec fn timespan_of(members: Seq<(String, Json)>) -> Option<int> {
    let s = uint_prop(members, "seconds"@, Some(0));
    let mi = uint_prop(members, "minutes"@, Some(0));
    let h = uint_prop(members, "hours"@, Some(0));
    let d = uint_prop(members, "days"@, Some(0));
    let mo = uint_prop(members, "months"@, Some(0));
    let y = uint_prop(members, "years"@, Some(0));
    if s is Some && mi is Some && h is Some && d is Some && mo is Some && y is Some {
        Some(
            s->0->0 + mi->0->0 * 60 + h->0->0 * 3600 + d->0->0 * 86400 + mo->0->0 * 2592000
                + y->0->0 * 31536000,
        )
    } else {
        None
    }
}

/// `a * b + acc`, or `None` past `u64::MAX`.
fn scaled_add(acc: u64, a: u64, b: u64) -> (r: Option<u64>)
    ensures
        r is Some == (acc + a * b <= u64::MAX),
        r matches Some(v) ==> v == acc + a * b,
{
    match a.checked_mul(b) {
        Some(p) => acc.checked_add(p),
        None => {
            proof {
                assert(a * b <= acc + a * b) by (nonlinear_arith);
            }
            None
        },
    }
}

/// The first unit of a timespan object, in the order seconds, minutes,
/// hours, days, months, years, that is present but not an unsigned integer.
pub open spec fn first_bad_unit(m: Seq<(String, Json)>) -> Option<Seq<char>> {
    if uint_prop(m, "seconds"@, Some(0)) is None {
        Some("seconds"@)
    } else if uint_prop(m, "minutes"@, Some(0)) is None {
        Some("minutes"@)
    } else if uint_prop(m, "hours"@, Some(0)) is None {
        Some("hours"@)
    } else if uint_prop(m, "days"@, Some(0)) is None {
        Some("days"@)
    } else if uint_prop(m, "months"@, Some(0)) is None {
        Some("months"@)
    } else if uint_prop(m, "years"@, Some(0)) is None {
        Some("years"@)
    } else {
        None
    }
}

/// The error of a timespan object: `NotAnUnsignedInt` naming its first bad
/// unit, or, where every unit is an integer, only `TimespanOverflow`.
pub open spec fn timespan_error_fits(m: Seq<(String, Json)>, r: Result<u64, ParseError>) -> bool {
    match first_bad_unit(m) {
        Some(u) => r matches Err(ParseError::NotAnUnsignedInt(p)) && p@ == u,
        None => r is Err ==> r->Err_0 is TimespanOverflow,
    }
}

impl KeepLimit {
    /// The length of a timespan object in seconds.
    pub fn parse_timespan(json: Option<&Json>) -> (r: Result<u64, ParseError>)
        ensures
            json is None ==> (r matches Err(ParseError::RequiredPropMissing(p)) && p@ == "timespan"@),
            json matches Some(v) && !(v is Object) ==> (r matches Err(ParseError::NotAnObject(p)) && p@ == "timespan"@),
            json matches Some(Json::Object(m)) ==> ((r is Ok) == (timespan_of(m@) is Some && timespan_of(m@)->0 <= u64::MAX)
                && (r is Ok ==> timespan_of(m@) == Some(r->Ok_0 as int))),
            json matches Some(Json::Object(m)) ==> timespan_error_fits(m@, r),
    {
        match json {
            Some(Json::Object(obj)) => {
                let seconds = uint_from_opt_json_prop(obj, "seconds", 0)?;
                let minutes = uint_from_opt_json_prop(obj, "minutes", 0)?;
                let hours = uint_from_opt_json_prop(obj, "hours", 0)?;
                let days = uint_from_opt_json_prop(obj, "days", 0)?;
                let months = uint_from_opt_json_prop(obj, "months", 0)?;
                let years = uint_from_opt_json_prop(obj, "years", 0)?;
                let t = match scaled_add(seconds, minutes, 60) {
                    Some(t) => t,
                    None => return Err(ParseError::TimespanOverflow),
                };
                let t = match scaled_add(t, hours, 3600) {
                    Some(t) => t,
                    None => return Err(ParseError::TimespanOverflow),
                };
                let t = match scaled_add(t, days, 86400) {
                    Some(t) => t,
                    None => return Err(ParseError::TimespanOverflow),
                };
                let t = match scaled_add(t, months, 2592000) {
                    Some(t) => t,
                    None => return Err(ParseError::TimespanOverflow),
                };
                match scaled_add(t, years, 31536000) {
                    Some(t) => Ok(t),
                    None => Err(ParseError::TimespanOverflow),
                }
            },
            Some(_) => Err(ParseError::NotAnObject("timespan")),
            None => Err(ParseError::RequiredPropMissing("timespan")),
        }
    }

    /// A bucket from its configuration object.
    pub fn new(json: &Json) -> (r: Result<KeepLimit, ParseError>)
        ensures
            !(json is Object) ==> (r matches Err(ParseError::NotAnObject(p)) && p@ == "keep limit"@),
            r is Ok == keep_limit_of(*json) is Some,
            r matches Ok(k) ==> keep_limit_of(*json) == Some(k),
    {
        match json {
            Json::Object(obj) => {
                let count = uint_from_json_prop(obj, "count")?;
                let timespan = KeepLimit::parse_timespan(get(obj, "timespan"))?;
                Ok(KeepLimit { count, timespan })
            },
            _ => Err(ParseError::NotAnObject("keep limit")),
        }
    }

    /// The buckets of a configuration array, in pruning order.
    pub fn new_vec(json: Option<&Json>) -> (r: Result<Vec<KeepLimit>, ParseError>)
        ensures
            json is None ==> (r matches Ok(v) && v@.len() == 0),
            json matches Some(v) && !(v is Array) ==> (r matches Err(ParseError::NotAnArray(p)) && p@ == "keep limit"@),
            r matches Ok(v) ==> keep_sorted(v@),
            json matches Some(Json::Array(items)) ==> (r is Ok == (forall|i: int|
                0 <= i < items@.len() ==> keep_limit_of(#[trigger] items@[i]) is Some)),
            json matches Some(Json::Array(items)) ==> (r is Ok ==> r->Ok_0@.to_multiset()
                == items@.map_values(|j: Json| keep_limit_of(j)->0).to_multiset()),
    {
        match json {
            None => Ok(Vec::new()),
            Some(Json::Array(items)) => {
                let parsed = parse_keep_limits(items)?;
                Ok(sort_keep_limits(parsed))
            },
            Some(_) => Err(ParseError::NotAnArray("keep limit")),
        }
    }
}

/// The bucket that a configuration value describes: an object with an
/// unsigned `count` and a `timespan` object whose seconds fit in 64 bits.
pub open spec fn keep_limit_of(j: Json) -> Option<KeepLimit> {
    match j {
        Json::Object(m) => match (uint_prop(m@, "count"@, None), get_spec(m@, "timespan"@)) {
            (Some(Some(c)), Some(Json::Object(tm))) => match timespan_of(tm@) {
                Some(t) => if t <= u64::MAX {
                    Some(KeepLimit { count: c, timespan: t as u64 })
                } else {
                    None
                },
                None => None,
            },
            _ => None,
        },
        _ => None,
    }
}

/// The buckets of `items`, in their order.
fn parse_keep_limits(items: &Vec<Json>) -> (r: Result<Vec<KeepLimit>, ParseError>)
    ensures
        r is Ok == (forall|i: int| 0 <= i < items@.len() ==> keep_limit_of(#[trigger] items@[i]) is Some),
        r matches Ok(v) ==> v@ == items@.map_values(|j: Json| keep_limit_of(j)->0),
{
    let mut parsed: Vec<KeepLimit> = Vec::new();
    let mut i: usize = 0;
    while i < items.len()
        invariant
            i <= items@.len(),
            forall|k: int| 0 <= k < i ==> keep_limit_of(#[trigger] items@[k]) is Some,
            parsed@ == items@.subrange(0, i as int).map_values(|j: Json| keep_limit_of(j)->0),
        decreases items.len() - i,
    {
        let k = match KeepLimit::new(&items[i]) {
            Ok(k) => k,
            Err(e) => {
                proof {
                    assert(keep_limit_of(items@[i as int]) is None);
                }
                return Err(e);
            },
        };
        let ghost before = parsed@;
        parsed.push(k);
        proof {
            assert(items@.subrange(0, i + 1).map_values(|j: Json| keep_limit_of(j)->0) =~= before.push(k));
        }
        i = i + 1;
    }
    proof {
        assert(items@.subrange(0, items@.len() as int) =~= items@);
    }
    Ok(parsed)
}

/// `v` in pruning order.
pub fn sort_keep_limits(v: Vec<KeepLimit>) -> (r: Vec<KeepLimit>)
    ensures
        keep_sorted(r@),
        r@.to_multiset() == v@.to_multiset(),
{
    broadcast use vstd::seq_lib::to_multiset_build, vstd::seq_lib::to_multiset_insert;

    let mut out: Vec<KeepLimit> = Vec::new();
    let mut i: usize = 0;
    proof {
        assert(v@.subrange(0, 0) =~= Seq::<KeepLimit>::empty());
    }
    while i < v.len()
        invariant
            i <= v@.len(),
            keep_sorted(out@),
            out@.to_multiset() == v@.subrange(0, i as int).to_multiset(),
            out@.len() == i,
        decreases v.len() - i,
    {
        let x = v[i];
        let mut pos: usize = 0;
        while pos < out.len() && !(x.timespan < out[pos].timespan || (x.timespan == out[pos].timespan
            && x.count > out[pos].count))
            invariant
                pos <= out@.len(),
                forall|k: int| 0 <= k < pos ==> keep_le(#[trigger] out@[k], x),
            decreases out.len() - pos,
        {
            pos = pos + 1;
        }
        let ghost before = out@;
        out.insert(pos, x);
        proof {
            assert(out@ == before.insert(pos as int, x));
            assert forall|a: int, b: int| 0 <= a < b < out@.len() implies keep_le(
                #[trigger] out@[a],
                #[trigger] out@[b],
            ) by {
                if b < pos {
                    assert(out@[a] == before[a] && out@[b] == before[b]);
                } else if b == pos {
                    assert(out@[a] == before[a]);
                } else if a == pos {
                    assert(out@[b] == before[b - 1]);
                    assert(keep_le(x, before[pos as int]));
                    if b - 1 > pos {
                        assert(keep_le(before[pos as int], before[b - 1]));
                    }
                } else if a < pos {
                    assert(out@[a] == before[a] && out@[b] == before[b - 1]);
                } else {
                    assert(out@[a] == before[a - 1] && out@[b] == before[b - 1]);
                }
            }
            assert(v@.subrange(0, i + 1) =~= v@.subrange(0, i as int).push(x));
            vstd::seq_lib::to_multiset_insert(before, pos as int, x);
            vstd::seq_lib::to_multiset_build(v@.subrange(0, i as int), x);
        }
        i = i + 1;
    }
    proof {
        assert(v@.subrange(0, v@.len() as int) =~= v@);
    }
    out
}

#[verifier::external_type_specification]
#[verifier::external_body]
pub struct ExRegex(regex::Regex);

#[verifier::external_type_specification]
#[verifier::external_body]
pub struct ExRegexError(regex::Error);

/// Whether the regex crate accepts `pattern`.
pub uninterp spec fn regex_compiles(pattern: Seq<char>) -> bool;

/// Whether the regex `pattern` matches somewhere in `text`.
pub uninterp spec fn regex_matches(pattern: Seq<char>, text: Seq<char>) -> bool;

/// The first media type (its essence, such as `text/plain`) that the
/// extension of `path` maps to, if any.
pub uninterp spec fn first_mime_guess(path: Seq<char>) -> Option<Seq<char>>;

/// A compiled regular expression together with its source text.
pub struct Pattern {
    source: String,
    compiled: regex::Regex,
}

impl Pattern {
    pub closed spec fn text(&self) -> Seq<char> {
        self.source@
    }

    /// The expression `source`, compiled; `Err` where the regex crate rejects it.
    pub fn new(source: &str) -> (r: Result<Pattern, regex::Error>)
        ensures
            r is Ok == regex_compiles(source@),
            r matches Ok(p) ==> p.text() == source@,
    {
        compile_regex(source)
    }

    /// The source text of the expression.
    pub fn source(&self) -> (r: &str)
        ensures
            r@ == self.text(),
    {
        self.source.as_str()
    }
}

/// Relies on regex::Regex::new: compiles `source`, failing exactly on the
/// patterns that the crate rejects; the pattern keeps its source text.
#[verifier::external_body]
fn compile_regex(source: &str) -> (r: Result<Pattern, regex::Error>)
    ensures
        r is Ok == regex_compiles(source@),
        r matches Ok(p) ==> p.text() == source@,
{
    regex::Regex::new(source).map(|compiled| Pattern { source: source.to_string(), compiled })
}

/// Relies on regex::Regex::is_match: whether the pattern, compiled from its
/// source text, matches somewhere in `text`.
#[verifier::external_body]
fn pattern_is_match(p: &Pattern, text: &str) -> (r: bool)
    ensures
        r == regex_matches(p.text(), text@),
{
    p.compiled.is_match(text)
}

/// Relies on mime_guess::from_path and MimeGuess::first: the first media type
/// guessed from the path's extension, as its essence text.
#[verifier::external_body]
fn guess_mime(path: &str) -> (r: Option<String>)
    ensures
        r is Some == first_mime_guess(path@) is Some,
        r matches Some(m) ==> first_mime_guess(path@) == Some(m@),
{
    mime_guess::from_path(path).first().map(|m| m.essence_str().to_string())
}

/// A predicate over an entry's path and size; an entry that a directory's
/// filter matches is skipped with its whole subtree.
pub enum Filter {
    /// The path, read as text, matches the pattern.
    Name(Pattern),
    /// The size lies in `[min, max]`.
    Size(u64, u64),
    /// The media type guessed from the path's extension matches the pattern.
    MimeType(Pattern),
    Not(Box<Filter>),
    /// All of the filters match (true of none).
    And(Vec<Filter>),
    /// Some filter matches (false of none).
    Or(Vec<Filter>),
}

/// Whether `f` matches an entry at `path` of `size` bytes.
pub open spec fn filter_matches(f: Filter, path: Seq<u8>, size: u64) -> bool
    decreases f,
{
    match f {
        Filter::Name(p) => path.len() > 0 && valid_utf8(path) && regex_matches(p.text(), decode_utf8(path)),
        Filter::Size(min, max) => min <= size && size <= max,
        Filter::MimeType(p) => valid_utf8(path) && match first_mime_guess(decode_utf8(path)) {
            Some(m) => m.len() > 0 && regex_matches(p.text(), m),
            None => false,
        },
        Filter::Not(g) => !filter_matches(*g, path, size),
        Filter::And(fs) => forall|i: int|
            0 <= i < fs@.len() ==> filter_matches(#[trigger] fs@[i], path, size),
        Filter::Or(fs) => exists|i: int|
            0 <= i < fs@.len() && filter_matches(#[trigger] fs@[i], path, size),
    }
}

/// `and` over no filters matches every entry and `or` over none matches none.
pub proof fn lemma_empty_combinators(fs: Vec<Filter>, gs: Vec<Filter>, path: Seq<u8>, size: u64)
    requires
        fs@.len() == 0,
        gs@.len() == 0,
    ensures
        filter_matches(Filter::And(fs), path, size),
        !filter_matches(Filter::Or(gs), path, size),
{
}

/// A size range whose ends both equal the size matches it.
pub proof fn lemma_size_exact(size: u64, path: Seq<u8>)
    ensures
        filter_matches(Filter::Size(size, size), path, size),
{
}

impl Filter {
    /// Whether the filter matches an entry at `path` of `size` bytes.
    pub fn matches(&self, path: &[u8], size: u64) -> (r: bool)
        ensures
            r == filter_matches(*self, path@, size),
        decreases self,
    {
        match self {
            Filter::Name(p) => path.len() > 0 && match utf8_text(path) {
                Some(t) => pattern_is_match(p, t),
                None => false,
            },
            Filter::Size(min, max) => *min <= size && size <= *max,
            Filter::MimeType(p) => match utf8_text(path) {
                Some(t) => match guess_mime(t) {
                    Some(m) => m.as_str().unicode_len() > 0 && pattern_is_match(p, m.as_str()),
                    None => false,
                },
                None => false,
            },
            Filter::Not(g) => !g.matches(path, size),
            Filter::And(fs) => {
                let mut i: usize = 0;
                while i < fs.len()
                    invariant
                        i <= fs@.len(),
                        *self == Filter::And(*fs),
                        forall|k: int| 0 <= k < i ==> filter_matches(#[trigger] fs@[k], path@, size),
                    decreases fs.len() - i,
                {
                    proof {
                        assert(decreases_to!(*self => self->And_0));
                        assert(decreases_to!(*fs => fs@));
                        assert(decreases_to!(fs@ => fs@[i as int]));
                        assert(filter_matches(Filter::And(*fs), path@, size) == (forall|k: int| 0 <= k < fs@.len() ==> filter_matches(#[trigger] fs@[k], path@, size)));
                    }
                    if !fs[i].matches(path, size) {
                        proof {
                            assert(!filter_matches(fs@[i as int], path@, size));
                            assert(!filter_matches(Filter::And(*fs), path@, size));
                        }
                        return false;
                    }
                    i = i + 1;
                }
                true
            },
            Filter::Or(fs) => {
                let mut i: usize = 0;
                while i < fs.len()
                    invariant
                        i <= fs@.len(),
                        *self == Filter::Or(*fs),
                        forall|k: int| 0 <= k < i ==> !filter_matches(#[trigger] fs@[k], path@, size),
                    decreases fs.len() - i,
                {
                    proof {
                        assert(decreases_to!(*self => self->Or_0));
                        assert(decreases_to!(*fs => fs@));
                        assert(decreases_to!(fs@ => fs@[i as int]));
                        assert(filter_matches(Filter::Or(*fs), path@, size) == (exists|k: int| 0 <= k < fs@.len() && filter_matches(#[trigger] fs@[k], path@, size)));
                    }
                    if fs[i].matches(path, size) {
                        proof {
                            assert(filter_matches(fs@[i as int], path@, size));
                            assert(filter_matches(Filter::Or(*fs), path@, size));
                        }
                        return true;
                    }
                    i = i + 1;
                }
                false
            },
        }
    }
}

/// Whether a configuration value describes a filter: an object whose `on`
/// names a kind, with a pattern the regex crate accepts for `name` and
/// `mime`, unsigned bounds for `size`, a filter under `filter` for `not`,
/// and an array of filters (or none) under `filters` for `and` and `or`.
pub open spec fn filter_parses(j: Json) -> bool
    decreases j,
{
    match j {
        Json::Object(m) => match member_value(m, "on"@) {
            Some(Json::Text(on)) => if on@ == "name"@ || on@ == "mime"@ {
                match member_value(m, "pattern"@) {
                    Some(Json::Text(p)) => regex_compiles(p@),
                    _ => false,
                }
            } else if on@ == "size"@ {
                uint_prop(m@, "min"@, Some(0)) is Some && uint_prop(m@, "max"@, Some(u64::MAX)) is Some
            } else if on@ == "not"@ {
                match crate::json::member_index(m@, "filter"@) {
                    Some(k) => k < m@.len() && filter_parses(m@[k as int].1),
                    None => false,
                }
            } else if on@ == "and"@ || on@ == "or"@ {
                match crate::json::member_index(m@, "filters"@) {
                    Some(k) => k < m@.len() && match m@[k as int].1 {
                        Json::Array(items) => forall|i: int|
                            0 <= i < items@.len() ==> filter_parses(#[trigger] items@[i]),
                        _ => false,
                    },
                    None => true,
                }
            } else {
                false
            },
            _ => false,
        },
        _ => false,
    }
}

/// The space mode that a node's members name, if they name one: `none` (or
/// no `space_mode`), `compress` with a known `algorithm` (default `bzip2`),
/// or `linked` with an unsigned `max_link_count` (default unbounded) and
/// timestamp `change_detection` (the default).
pub open spec fn mode_of(m: Vec<(String, Json)>) -> Option<SpaceMode> {
    match member_value(m, "space_mode"@) {
        None => Some(SpaceMode::Basic),
        Some(Json::Text(w)) => if w@ == "none"@ {
            Some(SpaceMode::Basic)
        } else if w@ == "compress"@ {
            match crate::json::text_prop(m@, "algorithm"@, Some("bzip2"@)) {
                Some(Some(a)) => match crate::compression::algorithm_named(lower_of(a)) {
                    Some(alg) => Some(SpaceMode::Compressed(alg)),
                    None => None,
                },
                _ => None,
            }
        } else if w@ == "linked"@ {
            match (
                uint_prop(m@, "max_link_count"@, Some(u64::MAX)),
                crate::json::text_prop(m@, "change_detection"@, Some("timestamp"@)),
            ) {
                (Some(Some(n)), Some(Some(d))) => if detection_named(lower_of(d)) == Some(
                    ChangeDetectionMethod::Timestamp,
                ) {
                    Some(SpaceMode::HardLinked { max_link_count: n, detection: ChangeDetectionMethod::Timestamp })
                } else {
                    None
                },
                _ => None,
            }
        } else {
            None
        },
        Some(_) => None,
    }
}

/// Whether a node value is basic all the way down.
pub open spec fn node_basic(j: Json) -> bool
    decreases j,
{
    match j {
        Json::Object(m) => mode_of(m) == Some(SpaceMode::Basic) && match crate::json::member_index(
            m@,
            "subconfigs"@,
        ) {
            Some(k) => k < m@.len() && match m@[k as int].1 {
                Json::Array(items) => forall|i: int|
                    0 <= i < items@.len() ==> node_basic(#[trigger] items@[i]),
                _ => true,
            },
            None => true,
        },
        _ => false,
    }
}

/// Whether the child nodes listed in `m` are all basic all the way down.
pub open spec fn children_basic(m: Vec<(String, Json)>) -> bool {
    match member_value(m, "subconfigs"@) {
        Some(Json::Array(items)) => forall|i: int|
            0 <= i < items@.len() ==> node_basic(#[trigger] items@[i]),
        _ => true,
    }
}

/// Whether a configuration value describes a policy node: an object with a
/// string `subpath`, valid `filters` and `subconfigs` arrays (or none), and a
/// space mode; a compressing node has only basic nodes below it.
pub open spec fn config_parses(j: Json) -> bool
    decreases j,
{
    match j {
        Json::Object(m) => {
            let subconfigs_ok = match crate::json::member_index(m@, "subconfigs"@) {
                Some(k) => k < m@.len() && match m@[k as int].1 {
                    Json::Array(items) => forall|i: int|
                        0 <= i < items@.len() ==> config_parses(#[trigger] items@[i]),
                    _ => false,
                },
                None => true,
            };
            let filters_ok = match member_value(m, "filters"@) {
                None => true,
                Some(Json::Array(items)) => forall|i: int|
                    0 <= i < items@.len() ==> filter_parses(#[trigger] items@[i]),
                Some(_) => false,
            };
            let subpath = crate::json::text_prop(m@, "subpath"@, None);
            subconfigs_ok && subpath is Some && subpath->0 is Some && filters_ok && mode_of(m) is Some
                && (mode_of(m) is Some && mode_of(m)->0 is Compressed ==> children_basic(m))
        },
        _ => false,
    }
}

/// Whether `f` is the filter that the configuration value `j` describes:
/// `name` and `mime` give a pattern with the `pattern` text, `size` gives the
/// `min` (default 0) and `max` (default `u64::MAX`) bounds, `not` the filter
/// under `filter`, and `and` and `or` the filters under `filters`, element by
/// element (none where it is absent).
pub open spec fn filter_built(f: Filter, j: Json) -> bool
    decreases j,
{
    match j {
        Json::Object(m) => match member_value(m, "on"@) {
            Some(Json::Text(on)) => if on@ == "name"@ {
                match (f, member_value(m, "pattern"@)) {
                    (Filter::Name(p), Some(Json::Text(t))) => p.text() == t@,
                    _ => false,
                }
            } else if on@ == "mime"@ {
                match (f, member_value(m, "pattern"@)) {
                    (Filter::MimeType(p), Some(Json::Text(t))) => p.text() == t@,
                    _ => false,
                }
            } else if on@ == "size"@ {
                match f {
                    Filter::Size(a, b) => uint_prop(m@, "min"@, Some(0)) == Some(Some(a)) && uint_prop(
                        m@,
                        "max"@,
                        Some(u64::MAX),
                    ) == Some(Some(b)),
                    _ => false,
                }
            } else if on@ == "not"@ {
                match f {
                    Filter::Not(g) => match crate::json::member_index(m@, "filter"@) {
                        Some(k) => k < m@.len() && filter_built(*g, m@[k as int].1),
                        None => false,
                    },
                    _ => false,
                }
            } else if on@ == "and"@ {
                match f {
                    Filter::And(fs) => match crate::json::member_index(m@, "filters"@) {
                        None => fs@.len() == 0,
                        Some(k) => k < m@.len() && match m@[k as int].1 {
                            Json::Array(items) => fs@.len() == items@.len() && forall|i: int|
                                0 <= i < items@.len() ==> filter_built(fs@[i], #[trigger] items@[i]),
                            _ => false,
                        },
                    },
                    _ => false,
                }
            } else if on@ == "or"@ {
                match f {
                    Filter::Or(fs) => match crate::json::member_index(m@, "filters"@) {
                        None => fs@.len() == 0,
                        Some(k) => k < m@.len() && match m@[k as int].1 {
                            Json::Array(items) => fs@.len() == items@.len() && forall|i: int|
                                0 <= i < items@.len() ==> filter_built(fs@[i], #[trigger] items@[i]),
                            _ => false,
                        },
                    },
                    _ => false,
                }
            } else {
                false
            },
            _ => false,
        },
        _ => false,
    }
}

/// The errors of `Filter::new` that the shape of `j` fixes: a missing or
/// non-string `on`, an `on` naming no kind, a missing or rejected `pattern`,
/// a `size` bound that is not an unsigned integer, a missing `filter` under
/// `not`, a `filters` that is not an array.
pub open spec fn filter_error_fits(j: Json, r: Result<Filter, ParseError>) -> bool {
    match j {
        Json::Object(m) => match member_value(m, "on"@) {
            None => r matches Err(ParseError::RequiredPropMissing(p)) && p@ == "on"@,
            Some(Json::Text(on)) => if on@ == "name"@ || on@ == "mime"@ {
                match member_value(m, "pattern"@) {
                    None => r matches Err(ParseError::RequiredPropMissing(p)) && p@ == "pattern"@,
                    Some(Json::Text(t)) => if regex_compiles(t@) {
                        r is Ok
                    } else {
                        r matches Err(ParseError::BadRegex(s, _)) && s@ == t@
                    },
                    Some(_) => r matches Err(ParseError::NotAString(p)) && p@ == "pattern"@,
                }
            } else if on@ == "size"@ {
                if uint_prop(m@, "min"@, Some(0)) is None {
                    r matches Err(ParseError::NotAnUnsignedInt(p)) && p@ == "min"@
                } else if uint_prop(m@, "max"@, Some(u64::MAX)) is None {
                    r matches Err(ParseError::NotAnUnsignedInt(p)) && p@ == "max"@
                } else {
                    r is Ok
                }
            } else if on@ == "not"@ {
                member_value(m, "filter"@) is None ==> (r matches Err(
                    ParseError::RequiredPropMissing(p),
                ) && p@ == "filter"@)
            } else if on@ == "and"@ || on@ == "or"@ {
                match member_value(m, "filters"@) {
                    None => r is Ok,
                    Some(Json::Array(_)) => true,
                    Some(_) => r matches Err(ParseError::NotAnArray(p)) && p@ == "filters"@,
                }
            } else {
                r matches Err(ParseError::UnknownOption(w)) && w@ == on@
            },
            Some(_) => r matches Err(ParseError::NotAString(p)) && p@ == "on"@,
        },
        _ => r matches Err(ParseError::NotAnObject(p)) && p@ == "filter"@,
    }
}





/// Whether `c` is the policy node that the configuration value `j`
/// describes: its subpath is the `subpath` text, its mode is [`mode_of`],
/// its filters are those of `filters` and its children those of
/// `subconfigs`, element by element (none where absent).
pub open spec fn config_built(c: DirectoryConfig, j: Json) -> bool
    decreases j,
{
    match j {
        Json::Object(m) => {
            let subpath_ok = match member_value(m, "subpath"@) {
                Some(Json::Text(t)) => c.subpath_view() == encode_utf8(t@),
                _ => false,
            };
            let filters_ok = match crate::json::member_index(m@, "filters"@) {
                None => c.filter_list().len() == 0,
                Some(k) => k < m@.len() && match m@[k as int].1 {
                    Json::Array(items) => c.filter_list().len() == items@.len() && forall|i: int|
                        0 <= i < items@.len() ==> filter_built(c.filter_list()[i], #[trigger] items@[i]),
                    _ => false,
                },
            };
            let children_ok = match crate::json::member_index(m@, "subconfigs"@) {
                None => c.children().len() == 0,
                Some(k) => k < m@.len() && match m@[k as int].1 {
                    Json::Array(items) => c.children().len() == items@.len() && forall|i: int|
                        0 <= i < items@.len() ==> config_built(c.children()[i], #[trigger] items@[i]),
                    _ => false,
                },
            };
            subpath_ok && mode_of(m) == Some(c.space_mode()) && filters_ok && children_ok
        },
        _ => false,
    }
}

/// Whether a node's `subconfigs`, `subpath` and `filters` members are valid.
pub open spec fn parts_ok(m: Vec<(String, Json)>) -> bool {
    let subconfigs_ok = match member_value(m, "subconfigs"@) {
        None => true,
        Some(Json::Array(items)) => forall|i: int|
            0 <= i < items@.len() ==> config_parses(#[trigger] items@[i]),
        Some(_) => false,
    };
    let filters_ok = match member_value(m, "filters"@) {
        None => true,
        Some(Json::Array(items)) => forall|i: int|
            0 <= i < items@.len() ==> filter_parses(#[trigger] items@[i]),
        Some(_) => false,
    };
    let subpath = crate::json::text_prop(m@, "subpath"@, None);
    subconfigs_ok && subpath is Some && subpath->0 is Some && filters_ok
}

/// The errors of `DirectoryConfig::from_json` that the shape of `j` fixes: a
/// `space_mode` that is not a string or names no mode; on a node whose other
/// members are valid, a `compress` over a child that is not basic all the way
/// down; and on a valid `linked` node, its `change_detection` (`full` is not
/// carried out, another word is unknown).
pub open spec fn config_error_fits(j: Json, r: Result<DirectoryConfig, ParseError>) -> bool {
    match j {
        Json::Object(m) => match member_value(m, "space_mode"@) {
            Some(Json::Text(w)) => if w@ == "none"@ {
                true
            } else if w@ == "compress"@ {
                parts_ok(m) ==> ((r matches Err(ParseError::CannotCompressNonbasic)) == !children_basic(m))
            } else if w@ == "linked"@ {
                parts_ok(m) && uint_prop(m@, "max_link_count"@, Some(u64::MAX)) is Some ==> match crate::json::text_prop(
                    m@,
                    "change_detection"@,
                    Some("timestamp"@),
                ) {
                    Some(Some(d)) => match detection_named(lower_of(d)) {
                        Some(ChangeDetectionMethod::FullCompare) => r matches Err(ParseError::UnsupportedOption(s)) && s@ == d,
                        Some(ChangeDetectionMethod::Timestamp) => r is Ok,
                        None => r matches Err(ParseError::UnknownOption(s)) && s@ == lower_of(d),
                    },
                    _ => r matches Err(ParseError::NotAString(p)) && p@ == "change_detection"@,
                }
            } else {
                r matches Err(ParseError::UnknownOption(s)) && s@ == w@
            },
            Some(_) => r matches Err(ParseError::NotAString(p)) && p@ == "space_mode"@,
            None => true,
        },
        _ => r matches Err(ParseError::NotAnObject(p)) && p@ == ""@,
    }
}

/// The filter kinds a configuration names by its `on` member.
pub open spec fn filter_kind_named(word: Seq<char>) -> bool {
    word == "name"@ || word == "size"@ || word == "mime"@ || word == "not"@ || word == "and"@
        || word == "or"@
}

impl Filter {
    /// A filter from its configuration object.
    pub fn new(json: &Json) -> (r: Result<Filter, ParseError>)
        ensures
            r is Ok == filter_parses(*json),
            r matches Ok(f) ==> filter_built(f, *json),
            filter_error_fits(*json, r),
        decreases json,
    {
        match json {
            Json::Object(obj) => {
                proof {
                    crate::json::lemma_member_index_pub(obj@, "on"@);
                    crate::json::lemma_member_index_pub(obj@, "pattern"@);
                    crate::json::lemma_member_index_pub(obj@, "filter"@);
                    crate::json::lemma_member_index_pub(obj@, "filters"@);
                }
                let on = str_from_json_prop(obj, "on")?;
                if str_eq(on.as_str(), "name") || str_eq(on.as_str(), "mime") {
                    let pat = str_from_json_prop(obj, "pattern")?;
                    match Pattern::new(pat.as_str()) {
                        Ok(p) => if str_eq(on.as_str(), "name") {
                            Ok(Filter::Name(p))
                        } else {
                            Ok(Filter::MimeType(p))
                        },
                        Err(e) => Err(ParseError::BadRegex(pat.clone(), e)),
                    }
                } else if str_eq(on.as_str(), "size") {
                    let min = uint_from_opt_json_prop(obj, "min", 0)?;
                    let max = uint_from_opt_json_prop(obj, "max", u64::MAX)?;
                    Ok(Filter::Size(min, max))
                } else if str_eq(on.as_str(), "not") {
                    proof {
                        crate::json::lemma_member_index_pub(obj@, "filter"@);
                    }
                    match get(obj, "filter") {
                        Some(inner) => {
                            proof {
                                let j = crate::json::member_index(obj@, "filter"@)->0 as int;
                                assert(decreases_to!(*json => json->Object_0));
                                assert(decreases_to!(obj@[j] => obj@[j].1));
                            }
                            let f = Filter::new(inner)?;
                            Ok(Filter::Not(Box::new(f)))
                        },
                        None => Err(ParseError::RequiredPropMissing("filter")),
                    }
                } else if str_eq(on.as_str(), "and") || str_eq(on.as_str(), "or") {
                    proof {
                        crate::json::lemma_member_index_pub(obj@, "filters"@);
                    }
                    let fs = match get(obj, "filters") {
                        None => Vec::new(),
                        Some(Json::Array(items)) => {
                            proof {
                                let j = crate::json::member_index(obj@, "filters"@)->0 as int;
                                assert(decreases_to!(*json => json->Object_0));
                                assert(decreases_to!(obj@[j] => obj@[j].1));
                            }
                            filters_from_items(items)?
                        },
                        Some(_) => return Err(ParseError::NotAnArray("filters")),
                    };
                    if str_eq(on.as_str(), "and") {
                        Ok(Filter::And(fs))
                    } else {
                        Ok(Filter::Or(fs))
                    }
                } else {
                    Err(ParseError::UnknownOption(on.clone()))
                }
            },
            _ => Err(ParseError::NotAnObject("filter")),
        }
    }

    /// The filters of a configuration array; none where it is absent.
    pub fn new_vec(json: Option<&Json>) -> (r: Result<Vec<Filter>, ParseError>)
        ensures
            json is None ==> (r matches Ok(v) && v@.len() == 0),
            json matches Some(v) && !(v is Array) ==> (r matches Err(ParseError::NotAnArray(p)) && p@ == "filters"@),
            json matches Some(Json::Array(items)) ==> (r is Ok ==> r->Ok_0@.len() == items@.len()),
            json matches Some(Json::Array(items)) ==> (r is Ok == forall|i: int|
                0 <= i < items@.len() ==> filter_parses(#[trigger] items@[i])),
            json matches Some(Json::Array(items)) ==> (r matches Ok(v) ==> forall|i: int|
                0 <= i < items@.len() ==> filter_built(v@[i], #[trigger] items@[i])),
    {
        match json {
            None => Ok(Vec::new()),
            Some(Json::Array(items)) => filters_from_items(items),
            Some(_) => Err(ParseError::NotAnArray("filters")),
        }
    }
}

/// The filters of `items`, in order.
fn filters_from_items(items: &Vec<Json>) -> (r: Result<Vec<Filter>, ParseError>)
    ensures
        r matches Ok(v) ==> v@.len() == items@.len(),
        r is Ok == forall|i: int| 0 <= i < items@.len() ==> filter_parses(#[trigger] items@[i]),
        r matches Ok(v) ==> forall|i: int|
            0 <= i < items@.len() ==> filter_built(v@[i], #[trigger] items@[i]),
    decreases items,
{
    let mut out: Vec<Filter> = Vec::new();
    let mut i: usize = 0;
    while i < items.len()
        invariant
            i <= items@.len(),
            out@.len() == i,
            forall|k: int| 0 <= k < i ==> filter_parses(#[trigger] items@[k]),
            forall|k: int| 0 <= k < i ==> filter_built(out@[k], #[trigger] items@[k]),
        decreases items.len() - i,
    {
        proof {
            assert(decreases_to!(*items => items@));
            assert(decreases_to!(items@ => items@[i as int]));
        }
        let f = match Filter::new(&items[i]) {
            Ok(f) => f,
            Err(e) => {
                proof {
                    assert(!filter_parses(items@[i as int]));
                }
                return Err(e);
            },
        };
        out.push(f);
        i = i + 1;
    }
    Ok(out)
}

/// How a directory policy stores its subtree.
#[derive(Clone, Copy, Debug, PartialEq, Eq, Structural)]
pub enum SpaceMode {
    /// Entries go to the sink in use.
    Basic,
    /// The subtree becomes one tar archive under this compression.
    Compressed(CompressionAlgorithm),
    /// Unchanged entries are hard-linked to the previous snapshot.
    HardLinked { max_link_count: u64, detection: ChangeDetectionMethod },
}

/// Why a configuration is rejected.
#[derive(Debug)]
pub enum ParseError {
    NotAnObject(&'static str),
    NotAString(&'static str),
    NotAnArray(&'static str),
    NotAnUnsignedInt(&'static str),
    UnknownOption(String),
    RequiredPropMissing(&'static str),
    BadRegex(String, regex::Error),
    CannotCompressNonbasic,
    /// An option that is recognised but not carried out (content comparison).
    UnsupportedOption(String),
    /// A retention timespan too long to count in seconds.
    TimespanOverflow,
}

/// A policy node: a subpath, how its subtree is stored, the filters that skip
/// entries, and child policies keyed by subpath relative to this one.
pub struct DirectoryConfig {
    subpath: Vec<u8>,
    mode: SpaceMode,
    filters: Vec<Filter>,
    subconfigs: Vec<DirectoryConfig>,
}

/// What the walk does with one entry under a policy node.
#[derive(Clone, Copy, Debug, PartialEq, Eq, Structural)]
pub enum Step {
    /// A filter matched: the entry and its subtree are left out.
    Skip,
    /// The child policy at this index takes over the entry.
    Switch(usize),
    /// The entry goes to the sink in use; a directory's entries follow, each
    /// under this same node.
    Append { descend: bool },
}

/// Whether some filter of `fs` matches an entry at `path` of `size` bytes.
pub open spec fn any_filter_matches(fs: Seq<Filter>, path: Seq<u8>, size: u64) -> bool {
    exists|i: int| 0 <= i < fs.len() && filter_matches(#[trigger] fs[i], path, size)
}

/// Whether a child at `child_subpath` under a node at `base` takes over `src`:
/// the components of `src` are those of `base` followed by those of the child.
pub open spec fn child_takes(base: Seq<u8>, child_subpath: Seq<u8>, src: Seq<u8>) -> bool {
    components_of(src) == components_of(base) + components_of(child_subpath)
}

/// `tsnapshot-`, the prefix of an archive's file name.
pub open spec fn archive_prefix() -> Seq<u8> {
    seq![0x74u8, 0x73u8, 0x6eu8, 0x61u8, 0x70u8, 0x73u8, 0x68u8, 0x6fu8, 0x74u8, 0x2du8]
}

/// Where the archive of the subtree at `src` goes under the destination root
/// `dst`: beside the subtree's relative place, named after its last component.
pub open spec fn archive_path_of(dst: Seq<u8>, src: Seq<u8>, a: CompressionAlgorithm) -> Option<
    Seq<u8>,
> {
    let ns = named(segments(src));
    if ns.len() == 0 {
        None
    } else {
        Some(
            joined(
                joined(dst, join_segments(ns.drop_last())),
                archive_prefix() + ns.last() + extension_bytes(a),
            ),
        )
    }
}

impl DirectoryConfig {
    pub closed spec fn subpath_view(&self) -> Seq<u8> {
        self.subpath@
    }

    pub closed spec fn space_mode(&self) -> SpaceMode {
        self.mode
    }

    pub closed spec fn filter_list(&self) -> Seq<Filter> {
        self.filters@
    }

    pub closed spec fn children(&self) -> Seq<DirectoryConfig> {
        self.subconfigs@
    }

    /// Whether every node below this one is basic.
    pub closed spec fn subtree_basic(&self) -> bool
        decreases self,
    {
        forall|i: int|
            0 <= i < self.subconfigs@.len() ==> (#[trigger] self.subconfigs@[i]).mode is Basic
                && self.subconfigs@[i].subtree_basic()
    }

    /// Every compressing node in the tree has only basic nodes below it.
    pub closed spec fn well_formed(&self) -> bool
        decreases self,
    {
        (self.mode is Compressed ==> self.subtree_basic()) && forall|i: int|
            0 <= i < self.subconfigs@.len() ==> (#[trigger] self.subconfigs@[i]).well_formed()
    }

    /// A policy node. A compressing node must have only basic nodes below it.
    pub fn new(
        subpath: &[u8],
        mode: SpaceMode,
        filters: Vec<Filter>,
        subconfigs: Vec<DirectoryConfig>,
    ) -> (r: Result<DirectoryConfig, ParseError>)
        requires
            forall|i: int| 0 <= i < subconfigs@.len() ==> (#[trigger] subconfigs@[i]).well_formed(),
        ensures
            r matches Ok(c) ==> c.well_formed(),
            r is Err == (mode is Compressed && !(forall|i: int|
                0 <= i < subconfigs@.len() ==> (#[trigger] subconfigs@[i]).space_mode() is Basic
                    && subconfigs@[i].subtree_basic())),
            r is Err ==> r->Err_0 is CannotCompressNonbasic,
            r matches Ok(c) ==> c.subpath_view() == subpath@ && c.space_mode() == mode
                && c.filter_list() == filters@ && c.children() == subconfigs@,
    {
        let c = DirectoryConfig { subpath: copy_bytes(subpath), mode, filters, subconfigs };
        if matches!(c.mode, SpaceMode::Compressed(_)) && !c.is_only_basic() {
            return Err(ParseError::CannotCompressNonbasic);
        }
        Ok(c)
    }

    /// Whether every node below this one is basic.
    pub fn is_only_basic(&self) -> (r: bool)
        ensures
            r == self.subtree_basic(),
        decreases self,
    {
        let mut i: usize = 0;
        while i < self.subconfigs.len()
            invariant
                i <= self.subconfigs@.len(),
                forall|k: int|
                    0 <= k < i ==> (#[trigger] self.subconfigs@[k]).mode is Basic
                        && self.subconfigs@[k].subtree_basic(),
            decreases self.subconfigs.len() - i,
        {
            let child = &self.subconfigs[i];
            if !matches!(child.mode, SpaceMode::Basic) || !child.is_only_basic() {
                return false;
            }
            i = i + 1;
        }
        true
    }

    pub fn subpath(&self) -> (r: &Vec<u8>)
        ensures
            r@ == self.subpath_view(),
    {
        &self.subpath
    }

    pub fn mode(&self) -> (r: SpaceMode)
        ensures
            r == self.space_mode(),
    {
        self.mode
    }

    pub fn filters(&self) -> (r: &Vec<Filter>)
        ensures
            r@ == self.filter_list(),
    {
        &self.filters
    }

    pub fn subconfigs(&self) -> (r: &Vec<DirectoryConfig>)
        ensures
            r@ == self.children(),
    {
        &self.subconfigs
    }

    /// Whether some filter of this node matches the entry.
    pub fn filtered(&self, src: &[u8], size: u64) -> (r: bool)
        ensures
            r == any_filter_matches(self.filter_list(), src@, size),
    {
        let mut i: usize = 0;
        while i < self.filters.len()
            invariant
                i <= self.filters@.len(),
                forall|k: int| 0 <= k < i ==> !filter_matches(#[trigger] self.filters@[k], src@, size),
            decreases self.filters.len() - i,
        {
            if self.filters[i].matches(src, size) {
                return true;
            }
            i = i + 1;
        }
        false
    }

    /// The index of the first child policy that takes over `src`.
    pub fn subconfig_index(&self, src: &[u8]) -> (r: Option<usize>)
        ensures
            r matches Some(i) ==> i < self.children().len() && child_takes(
                self.subpath_view(),
                self.children()[i as int].subpath_view(),
                src@,
            ) && forall|j: int|
                0 <= j < i ==> !child_takes(
                    self.subpath_view(),
                    (#[trigger] self.children()[j]).subpath_view(),
                    src@,
                ),
            r is None ==> forall|j: int|
                0 <= j < self.children().len() ==> !child_takes(
                    self.subpath_view(),
                    (#[trigger] self.children()[j]).subpath_view(),
                    src@,
                ),
    {
        let src_comps = components(src);
        let base = components(&self.subpath);
        let mut i: usize = 0;
        while i < self.subconfigs.len()
            invariant
                i <= self.subconfigs@.len(),
                src_comps@.map_values(|v: Vec<u8>| v@) == components_of(src@),
                base@.map_values(|v: Vec<u8>| v@) == components_of(self.subpath@),
                forall|j: int|
                    0 <= j < i ==> !child_takes(
                        self.subpath@,
                        (#[trigger] self.subconfigs@[j]).subpath@,
                        src@,
                    ),
            decreases self.subconfigs.len() - i,
        {
            let child = components(&self.subconfigs[i].subpath);
            if comps_concat_eq(&src_comps, &base, &child) {
                return Some(i);
            }
            i = i + 1;
        }
        None
    }

    /// The child policy that takes over `src`, if any.
    pub fn get_subconfig(&self, src: &[u8]) -> (r: Option<&DirectoryConfig>)
        ensures
            r is Some == exists|j: int|
                0 <= j < self.children().len() && child_takes(
                    self.subpath_view(),
                    (#[trigger] self.children()[j]).subpath_view(),
                    src@,
                ),
            r matches Some(c) ==> exists|j: int|
                0 <= j < self.children().len() && self.children()[j] == *c && child_takes(
                    self.subpath_view(),
                    c.subpath_view(),
                    src@,
                ),
    {
        match self.subconfig_index(src) {
            Some(i) => Some(&self.subconfigs[i]),
            None => None,
        }
    }

    /// What the walk does with the entry at `src`, of the given kind and size,
    /// under this node: filters first, then a child policy, else the sink.
    pub fn step(&self, src: &[u8], kind: EntryKind, size: u64) -> (r: Step)
        ensures
            (r == Step::Skip) == any_filter_matches(self.filter_list(), src@, size),
            r matches Step::Switch(i) ==> i < self.children().len() && child_takes(
                self.subpath_view(),
                self.children()[i as int].subpath_view(),
                src@,
            ) && forall|j: int|
                0 <= j < i ==> !child_takes(
                    self.subpath_view(),
                    (#[trigger] self.children()[j]).subpath_view(),
                    src@,
                ),
            r matches Step::Append { descend } ==> descend == (kind == EntryKind::Directory)
                && forall|j: int|
                0 <= j < self.children().len() ==> !child_takes(
                    self.subpath_view(),
                    (#[trigger] self.children()[j]).subpath_view(),
                    src@,
                ),
            r is Switch || r is Append ==> !any_filter_matches(self.filter_list(), src@, size),
    {
        if self.filtered(src, size) {
            return Step::Skip;
        }
        match self.subconfig_index(src) {
            Some(i) => Step::Switch(i),
            None => Step::Append { descend: kind == EntryKind::Directory },
        }
    }
}

impl DirectoryConfig {
    /// A policy node from its configuration object. `space_mode` is `none`
    /// (the default), `compress` or `linked`.
    #[verifier::rlimit(60)]
    pub fn from_json(json: &Json) -> (r: Result<DirectoryConfig, ParseError>)
        ensures
            r matches Ok(c) ==> config_built(c, *json),
            config_error_fits(*json, r),
            r matches Ok(c) ==> !(c.space_mode() matches SpaceMode::HardLinked { detection: ChangeDetectionMethod::FullCompare, .. }),
            r is Ok == config_parses(*json),
            r matches Ok(c) ==> c.well_formed(),
            r matches Ok(c) ==> (c.space_mode() is Basic && c.subtree_basic()) == node_basic(*json),
        decreases json,
    {
        match json {
            Json::Object(obj) => {
                proof {
                    crate::json::lemma_member_index_pub(obj@, "subconfigs"@);
                    crate::json::lemma_member_index_pub(obj@, "filters"@);
                    crate::json::lemma_member_index_pub(obj@, "space_mode"@);
                    crate::json::lemma_member_index_pub(obj@, "subpath"@);
                }
                let kind: u8 = match get(obj, "space_mode") {
                    None => 0,
                    Some(Json::Text(w)) => {
                        if str_eq(w.as_str(), "none") {
                            0
                        } else if str_eq(w.as_str(), "compress") {
                            1
                        } else if str_eq(w.as_str(), "linked") {
                            2
                        } else {
                            return Err(ParseError::UnknownOption(w.clone()));
                        }
                    },
                    Some(_) => return Err(ParseError::NotAString("space_mode")),
                };
                let ghost mut kids: Seq<Json> = Seq::empty();
                let subconfigs = match get(obj, "subconfigs") {
                    None => Vec::new(),
                    Some(Json::Array(items)) => {
                        proof {
                            crate::json::lemma_member_index_pub(obj@, "subconfigs"@);
                            let j = crate::json::member_index(obj@, "subconfigs"@)->0 as int;
                            assert(decreases_to!(*json => json->Object_0));
                            assert(decreases_to!(obj@[j] => obj@[j].1));
                            kids = items@;
                        }
                        configs_from_items(items)?
                    },
                    Some(_) => return Err(ParseError::NotAnArray("subconfigs")),
                };
                proof {
                    assert(subconfigs@.len() == kids.len());
                    assert(forall|i: int| 0 <= i < kids.len() ==> config_parses(#[trigger] kids[i]));
                    assert(forall|i: int|
                        0 <= i < kids.len() ==> ((#[trigger] subconfigs@[i]).space_mode() is Basic
                            && subconfigs@[i].subtree_basic()) == node_basic(kids[i]));
                    assert(children_basic(*obj) == (forall|i: int| 0 <= i < kids.len() ==> node_basic(#[trigger] kids[i])));
                }
                let subpath = str_from_json_prop(obj, "subpath")?;
                let filters = Filter::new_vec(get(obj, "filters"))?;
                proof {
                    assert(parts_ok(*obj));
                }
                let mode = if kind == 0 {
                    SpaceMode::Basic
                } else if kind == 1 {
                    if !children_only_basic(&subconfigs) {
                        proof {
                            lemma_children_basic(*obj, kids, subconfigs@);
                        }
                        return Err(ParseError::CannotCompressNonbasic);
                    }
                    let name = str_from_opt_json_prop(obj, "algorithm", "bzip2")?;
                    match CompressionAlgorithm::from_str(name.as_str()) {
                        Ok(a) => SpaceMode::Compressed(a),
                        Err(word) => return Err(ParseError::UnknownOption(word)),
                    }
                } else {
                    let max_link_count = uint_from_opt_json_prop(obj, "max_link_count", u64::MAX)?;
                    let name = str_from_opt_json_prop(obj, "change_detection", "timestamp")?;
                    let detection = ChangeDetectionMethod::from_str(name.as_str())?;
                    if matches!(detection, ChangeDetectionMethod::FullCompare) {
                        return Err(ParseError::UnsupportedOption(name));
                    }
                    SpaceMode::HardLinked { max_link_count, detection }
                };
                proof {
                    assert(mode_of(*obj) == Some(mode));
                    lemma_children_basic(*obj, kids, subconfigs@);
                }
                let r = DirectoryConfig::new(subpath.as_str().as_bytes(), mode, filters, subconfigs);
                proof {
                    if r is Ok {
                        let c = r->Ok_0;
                        assert(c.children() == subconfigs@);
                        assert(c.subtree_basic() == (forall|i: int|
                            0 <= i < c.children().len() ==> (#[trigger] c.children()[i]).space_mode() is Basic
                                && c.children()[i].subtree_basic()));
                    }
                }
                r
            },
            _ => Err(ParseError::NotAnObject("")),
        }
    }
}

/// Whether every node of `cs` is basic all the way down.
fn children_only_basic(cs: &Vec<DirectoryConfig>) -> (r: bool)
    ensures
        r == forall|i: int|
            0 <= i < cs@.len() ==> (#[trigger] cs@[i]).space_mode() is Basic && cs@[i].subtree_basic(),
{
    let mut i: usize = 0;
    while i < cs.len()
        invariant
            i <= cs@.len(),
            forall|k: int|
                0 <= k < i ==> (#[trigger] cs@[k]).space_mode() is Basic && cs@[k].subtree_basic(),
        decreases cs.len() - i,
    {
        if !matches!(cs[i].mode(), SpaceMode::Basic) || !cs[i].is_only_basic() {
            return false;
        }
        i = i + 1;
    }
    true
}

proof fn lemma_children_basic(m: Vec<(String, Json)>, kids: Seq<Json>, cs: Seq<DirectoryConfig>)
    requires
        cs.len() == kids.len(),
        forall|i: int|
            0 <= i < kids.len() ==> ((#[trigger] cs[i]).space_mode() is Basic && cs[i].subtree_basic())
                == node_basic(kids[i]),
        children_basic(m) == (forall|i: int| 0 <= i < kids.len() ==> node_basic(#[trigger] kids[i])),
    ensures
        children_basic(m) == (forall|i: int|
            0 <= i < cs.len() ==> (#[trigger] cs[i]).space_mode() is Basic && cs[i].subtree_basic()),
{
    let all_basic = forall|i: int|
        0 <= i < cs.len() ==> (#[trigger] cs[i]).space_mode() is Basic && cs[i].subtree_basic();
    let kids_basic = forall|i: int| 0 <= i < kids.len() ==> node_basic(#[trigger] kids[i]);
    if all_basic {
        assert forall|i: int| 0 <= i < kids.len() implies node_basic(#[trigger] kids[i]) by {
            assert(cs[i].space_mode() is Basic && cs[i].subtree_basic());
        }
    }
    if kids_basic {
        assert forall|i: int| 0 <= i < cs.len() implies (#[trigger] cs[i]).space_mode() is Basic
            && cs[i].subtree_basic() by {
            assert(node_basic(kids[i]));
        }
    }
}

/// The policy nodes of `items`, in order.
fn configs_from_items(items: &Vec<Json>) -> (r: Result<Vec<DirectoryConfig>, ParseError>)
    ensures
        r matches Ok(v) ==> v@.len() == items@.len(),
        r is Ok == forall|i: int| 0 <= i < items@.len() ==> config_parses(#[trigger] items@[i]),
        r matches Ok(v) ==> forall|i: int| 0 <= i < v@.len() ==> (#[trigger] v@[i]).well_formed(),
        r matches Ok(v) ==> forall|i: int|
            0 <= i < items@.len() ==> config_built(v@[i], #[trigger] items@[i]),
        r matches Ok(v) ==> forall|i: int|
            0 <= i < items@.len() ==> ((#[trigger] v@[i]).space_mode() is Basic && v@[i].subtree_basic())
                == node_basic(items@[i]),
    decreases items,
{
    let mut out: Vec<DirectoryConfig> = Vec::new();
    let mut i: usize = 0;
    while i < items.len()
        invariant
            i <= items@.len(),
            out@.len() == i,
            forall|k: int| 0 <= k < i ==> config_parses(#[trigger] items@[k]),
            forall|k: int| 0 <= k < i ==> (#[trigger] out@[k]).well_formed(),
            forall|k: int| 0 <= k < i ==> config_built(out@[k], #[trigger] items@[k]),
            forall|k: int|
                0 <= k < i ==> ((#[trigger] out@[k]).space_mode() is Basic && out@[k].subtree_basic())
                    == node_basic(items@[k]),
        decreases items.len() - i,
    {
        proof {
            assert(decreases_to!(*items => items@));
            assert(decreases_to!(items@ => items@[i as int]));
        }
        let c = match DirectoryConfig::from_json(&items[i]) {
            Ok(c) => c,
            Err(e) => {
                proof {
                    assert(!config_parses(items@[i as int]));
                }
                return Err(e);
            },
        };
        out.push(c);
        i = i + 1;
    }
    Ok(out)
}

/// Whether a value is a configuration document: an object with a policy node
/// under `root_dir_config`, a string `destination_dir`, a known `verbosity`
/// and a string `name_format` where given, and valid `keep_limit` buckets
/// (or none).
pub open spec fn document_parses(j: Json) -> bool {
    match j {
        Json::Object(m) => {
            let root = get_spec(m@, "root_dir_config"@);
            let dst = crate::json::text_prop(m@, "destination_dir"@, None);
            let level = crate::json::text_prop(m@, "verbosity"@, Some("warning"@));
            let format = crate::json::text_prop(m@, "name_format"@, Some("%Y-%m-%d_%H-%M-%S"@));
            let limits_ok = match get_spec(m@, "keep_limit"@) {
                None => true,
                Some(Json::Array(items)) => forall|i: int|
                    0 <= i < items@.len() ==> keep_limit_of(#[trigger] items@[i]) is Some,
                Some(_) => false,
            };
            root is Some && config_parses(root->0) && dst is Some && dst->0 is Some && level is Some
                && verbosity_named(lower_of(level->0->0)) is Some && format is Some && limits_ok
        },
        _ => false,
    }
}

/// Whether `ks` are the buckets that a document's `keep_limit` lists (none
/// where it is absent), in any order.
pub open spec fn buckets_built(m: Seq<(String, Json)>, ks: Seq<KeepLimit>) -> bool {
    match get_spec(m, "keep_limit"@) {
        None => ks.len() == 0,
        Some(Json::Array(items)) => ks.to_multiset() == items@.map_values(
            |j: Json| keep_limit_of(j)->0,
        ).to_multiset(),
        Some(_) => false,
    }
}

/// Everything a run is configured with.
pub struct Configuration {
    pub root_dir_config: DirectoryConfig,
    pub destination_dir: String,
    pub verbosity: Verbosity,
    /// strftime pattern that names each snapshot directory.
    pub name_format: String,
    /// Retention buckets, in pruning order.
    pub keep_limit: Vec<KeepLimit>,
}

impl Configuration {
    /// The configuration a document holds. `destination_dir` and
    /// `root_dir_config` are required; `verbosity` defaults to `warning`,
    /// `name_format` to `%Y-%m-%d_%H-%M-%S`, `keep_limit` to no buckets.
    pub fn new(json: &Json) -> (r: Result<Configuration, ParseError>)
        ensures
            !(json is Object) ==> (r matches Err(ParseError::NotAnObject(p)) && p@ == ""@),
            r is Ok == document_parses(*json),
            r matches Ok(c) ==> json matches Json::Object(m) && crate::json::text_prop(
                m@,
                "destination_dir"@,
                None,
            ) == Some(Some(c.destination_dir@)) && crate::json::text_prop(
                m@,
                "name_format"@,
                Some("%Y-%m-%d_%H-%M-%S"@),
            ) == Some(Some(c.name_format@)) && keep_sorted(c.keep_limit@)
                && (get_spec(m@, "root_dir_config"@) matches Some(rj) && config_built(c.root_dir_config, rj))
                && buckets_built(m@, c.keep_limit@) && (crate::json::text_prop(
                m@,
                "verbosity"@,
                Some("warning"@),
            ) matches Some(Some(w)) && verbosity_named(lower_of(w)) == Some(c.verbosity)),
    {
        match json {
            Json::Object(obj) => {
                proof {
                    crate::json::lemma_member_index_pub(obj@, "root_dir_config"@);
                    crate::json::lemma_member_index_pub(obj@, "keep_limit"@);
                }
                let root = match get(obj, "root_dir_config") {
                    Some(j) => DirectoryConfig::from_json(j)?,
                    None => return Err(ParseError::RequiredPropMissing("root_dir_config")),
                };
                let destination_dir = str_from_json_prop(obj, "destination_dir")?.clone();
                let level = str_from_opt_json_prop(obj, "verbosity", "warning")?;
                let verbosity = log_level_from_str(level.as_str())?;
                let name_format = str_from_opt_json_prop(obj, "name_format", "%Y-%m-%d_%H-%M-%S")?;
                let keep_limit = KeepLimit::new_vec(get(obj, "keep_limit"))?;
                Ok(Configuration { root_dir_config: root, destination_dir, verbosity, name_format, keep_limit })
            },
            _ => Err(ParseError::NotAnObject("")),
        }
    }
}

/// The sink that a node's subtree goes to once the node takes over.
pub enum SinkPlan {
    /// Keep the sink in use.
    Current,
    /// Write a tar archive, compressed with `algorithm`, to the file `path`.
    Archive { path: Vec<u8>, algorithm: CompressionAlgorithm },
    /// Link unchanged entries to the previous snapshot.
    Linked(HardLinkOutputStream),
    /// Copy every entry; there is no previous snapshot to link to.
    Copied(CopyOutputStream),
}

impl DirectoryConfig {
    /// The sink for the subtree at `src` under the snapshot root `dst`, with
    /// `last` the previous snapshot if there is one. `None` where an archive
    /// is asked for a source that names no component.
    pub fn plan(&self, src: &[u8], dst: &[u8], last: Option<&[u8]>) -> (r: Option<SinkPlan>)
        ensures
            self.space_mode() is Basic ==> (r matches Some(SinkPlan::Current)),
            self.space_mode() matches SpaceMode::Compressed(a) ==> match archive_path_of(dst@, src@, a) {
                Some(p) => (r matches Some(SinkPlan::Archive { path, algorithm }) && path@ == p && algorithm == a),
                None => r is None,
            },
            self.space_mode() matches SpaceMode::HardLinked { max_link_count, detection } ==> match last {
                Some(l) => (r matches Some(SinkPlan::Linked(s)) && s.dir() == dst@ && s.reference_dir() == l@
                    && s.link_cap() == max_link_count && s.method() == detection),
                None => (r matches Some(SinkPlan::Copied(c)) && c.dir() == dst@),
            },
    {
        match self.mode {
            SpaceMode::Basic => Some(SinkPlan::Current),
            SpaceMode::Compressed(algorithm) => match archive_path(dst, src, algorithm) {
                Some(path) => Some(SinkPlan::Archive { path, algorithm }),
                None => None,
            },
            SpaceMode::HardLinked { max_link_count, detection } => match last {
                Some(l) => Some(SinkPlan::Linked(HardLinkOutputStream::new(dst, l, max_link_count, detection))),
                None => Some(SinkPlan::Copied(CopyOutputStream::new(dst))),
            },
        }
    }
}

/// A plain copy traversal mirrors its subtree: under a basic node without
/// filters or child policies no visited entry is skipped or handed to a child
/// (so `step` appends each one), and where the copy sink under `dir` stores
/// each visited entry, the step it takes creates an entry of the same kind at
/// that entry's relative place under `dir`.
pub proof fn lemma_plain_copy_traversal(
    node: DirectoryConfig,
    dir: Seq<u8>,
    visited: Seq<SourceEntry>,
    steps: Seq<OutputAction>,
)
    requires
        node.filter_list().len() == 0,
        node.children().len() == 0,
        visited.len() == steps.len(),
        forall|i: int|
            0 <= i < visited.len() ==> copy_result(dir, #[trigger] visited[i], Ok(steps[i])),
    ensures
        forall|i: int|
            0 <= i < visited.len() ==> !any_filter_matches(
                node.filter_list(),
                (#[trigger] visited[i]).path@,
                visited[i].size,
            ) && created(steps[i]) == Some((appended(dir, visited[i].path@), visited[i].kind)),
{
    assert forall|i: int| 0 <= i < visited.len() implies !any_filter_matches(
        node.filter_list(),
        (#[trigger] visited[i]).path@,
        visited[i].size,
    ) && created(steps[i]) == Some((appended(dir, visited[i].path@), visited[i].kind)) by {
        assert(copy_result(dir, visited[i], Ok(steps[i])));
        crate::copy::lemma_copy_mirrors_kind(dir, visited[i], steps[i]);
    }
}

/// Whether `src` is `base` followed by `child`, component for component.
fn comps_concat_eq(src: &Vec<Vec<u8>>, base: &Vec<Vec<u8>>, child: &Vec<Vec<u8>>) -> (r: bool)
    ensures
        r == (src@.map_values(|v: Vec<u8>| v@) == base@.map_values(|v: Vec<u8>| v@)
            + child@.map_values(|v: Vec<u8>| v@)),
{
    let ghost sv = src@.map_values(|v: Vec<u8>| v@);
    let ghost bv = base@.map_values(|v: Vec<u8>| v@);
    let ghost cv = child@.map_values(|v: Vec<u8>| v@);
    if src.len() < base.len() || src.len() - base.len() != child.len() {
        proof {
            assert(sv.len() != (bv + cv).len());
        }
        return false;
    }
    let mut i: usize = 0;
    while i < src.len()
        invariant
            i <= src@.len(),
            src@.len() == base@.len() + child@.len(),
            sv == src@.map_values(|v: Vec<u8>| v@),
            bv == base@.map_values(|v: Vec<u8>| v@),
            cv == child@.map_values(|v: Vec<u8>| v@),
            forall|k: int| 0 <= k < i ==> sv[k] == (bv + cv)[k],
        decreases src.len() - i,
    {
        let same = if i < base.len() {
            bytes_eq(&src[i], &base[i])
        } else {
            bytes_eq(&src[i], &child[i - base.len()])
        };
        if !same {
            proof {
                assert(sv[i as int] != (bv + cv)[i as int]);
            }
            return false;
        }
        i = i + 1;
    }
    proof {
        assert(sv =~= bv + cv);
    }
    true
}

/// Whether two byte strings are equal.
pub fn bytes_eq(a: &Vec<u8>, b: &Vec<u8>) -> (r: bool)
    ensures
        r == (a@ == b@),
{
    if a.len() != b.len() {
        return false;
    }
    let mut i: usize = 0;
    while i < a.len()
        invariant
            i <= a@.len(),
            a@.len() == b@.len(),
            forall|k: int| 0 <= k < i ==> a@[k] == b@[k],
        decreases a.len() - i,
    {
        if a[i] != b[i] {
            return false;
        }
        i = i + 1;
    }
    proof {
        assert(a@ =~= b@);
    }
    true
}

/// The path of the archive that holds the subtree at `src` under `dst`;
/// `None` when `src` names no component to call it after.
pub fn archive_path(dst: &[u8], src: &[u8], algorithm: CompressionAlgorithm) -> (r: Option<
    Vec<u8>,
>)
    ensures
        r is Some == archive_path_of(dst@, src@, algorithm) is Some,
        r matches Some(p) ==> archive_path_of(dst@, src@, algorithm) == Some(p@),
{
    let ns = named_segments(src);
    let n = ns.len();
    if n == 0 {
        return None;
    }
    let ghost nv = ns@.map_values(|v: Vec<u8>| v@);
    let parent = join_all(&ns, n - 1);
    let dir = join_path(dst, &parent);
    let mut name: Vec<u8> = Vec::new();
    name.push(0x74u8);
    name.push(0x73u8);
    name.push(0x6eu8);
    name.push(0x61u8);
    name.push(0x70u8);
    name.push(0x73u8);
    name.push(0x68u8);
    name.push(0x6fu8);
    name.push(0x74u8);
    name.push(0x2du8);
    proof {
        assert(name@ =~= archive_prefix());
    }
    let last = &ns[n - 1];
    let mut j: usize = 0;
    let ghost base = name@;
    while j < last.len()
        invariant
            j <= last@.len(),
            name@ == base + last@.subrange(0, j as int),
        decreases last.len() - j,
    {
        name.push(last[j]);
        proof {
            assert(last@.subrange(0, j + 1) =~= last@.subrange(0, j as int).push(last@[j as int]));
        }
        j = j + 1;
    }
    let ext = algorithm.extension_suffix();
    let ghost mid = name@;
    let mut k: usize = 0;
    while k < ext.len()
        invariant
            k <= ext@.len(),
            name@ == mid + ext@.subrange(0, k as int),
        decreases ext.len() - k,
    {
        name.push(ext[k]);
        proof {
            assert(ext@.subrange(0, k + 1) =~= ext@.subrange(0, k as int).push(ext@[k as int]));
        }
        k = k + 1;
    }
    proof {
        assert(last@.subrange(0, last@.len() as int) =~= last@);
        assert(ext@.subrange(0, ext@.len() as int) =~= ext@);
        assert(nv.subrange(0, n - 1) =~= nv.drop_last());
        assert(nv.last() == last@);
        assert(name@ =~= archive_prefix() + nv.last() + extension_bytes(algorithm));
    }
    Some(join_path(&dir, &name))
}

} // verus!
