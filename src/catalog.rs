//! The catalog of past snapshots: an ordered log of `(path, unix seconds)`
//! entries, most recent first, with retention-bucket pruning.
use vstd::prelude::*;
use crate::config::KeepLimit;

verus! {

/// An entry as a path and its UTC timestamp in seconds.
pub type EntryView = (Seq<char>, i64);

/// One snapshot recorded in the catalog.
pub struct Entry {
    path: Vec<char>,
    timestamp: i64,
}

impl View for Entry {
    type V = EntryView;

    closed spec fn view(&self) -> EntryView {
        (self.path@, self.timestamp)
    }
}

impl Entry {
    pub fn new(path: &[char], timestamp: i64) -> (r: Entry)
        ensures
            r@ == (path@, timestamp),
    {
        Entry { path: copy_chars(path), timestamp }
    }

    pub fn path(&self) -> (r: &Vec<char>)
        ensures
            r@ == self@.0,
    {
        &self.path
    }

    pub fn timestamp(&self) -> (r: i64)
        ensures
            r == self@.1,
    {
        self.timestamp
    }
}

/// Why a catalog could not be read.
#[derive(Clone, Copy, Debug, PartialEq, Eq, Structural)]
pub enum CatalogError {
    /// A line is not of the form `<path> <seconds>`.
    ParseError,
}

/// The ordered log of snapshots, most recent first.
pub struct BackupCatalog {
    entries: Vec<Entry>,
}

impl View for BackupCatalog {
    type V = Seq<EntryView>;

    closed spec fn view(&self) -> Seq<EntryView> {
        self.entries@.map_values(|e: Entry| e@)
    }
}

/// The index of the first entry of `es` no later than `threshold`.
pub open spec fn first_within(es: Seq<EntryView>, threshold: int) -> Option<nat>
    decreases es.len(),
{
    if es.len() == 0 {
        None
    } else if es[0].1 <= threshold {
        Some(0)
    } else {
        match first_within(es.drop_first(), threshold) {
            Some(j) => Some(j + 1),
            None => None,
        }
    }
}

/// The entries of `rest` that the buckets `limits` keep, counting back from a
/// kept entry at time `anchor`. Each step of a bucket drops the entries newer
/// than `anchor - timespan` and keeps the first one that is not; when the
/// buckets run out, everything left is dropped.
pub open spec fn retained_after(rest: Seq<EntryView>, anchor: int, limits: Seq<KeepLimit>) -> Seq<
    EntryView,
>
    decreases rest.len(), limits.len(),
{
    if limits.len() == 0 {
        Seq::empty()
    } else if limits[0].count == 0 {
        retained_after(rest, anchor, limits.drop_first())
    } else {
        match first_within(rest, anchor - limits[0].timespan) {
            Some(j) => if j < rest.len() {
                seq![rest[j as int]] + retained_after(
                    rest.subrange(j as int + 1, rest.len() as int),
                    rest[j as int].1 as int,
                    limits.update(
                        0,
                        KeepLimit { count: (limits[0].count - 1) as u64, timespan: limits[0].timespan },
                    ),
                )
            } else {
                Seq::empty()
            },
            None => Seq::empty(),
        }
    }
}

/// The catalog `es` after pruning with the buckets `limits`: the most recent
/// entry always stays, the rest as [`retained_after`] says.
pub open spec fn cleaned(es: Seq<EntryView>, limits: Seq<KeepLimit>) -> Seq<EntryView> {
    if es.len() == 0 {
        Seq::empty()
    } else {
        seq![es[0]] + retained_after(es.drop_first(), es[0].1 as int, limits)
    }
}

/// Pruning keeps the most recent entry of every non-empty catalog, and empties
/// only an empty one.
pub proof fn lemma_clean_keeps_most_recent(es: Seq<EntryView>, limits: Seq<KeepLimit>)
    ensures
        (cleaned(es, limits).len() > 0) == (es.len() > 0),
        es.len() > 0 ==> cleaned(es, limits)[0] == es[0],
{
}

/// Unicode white space, the characters that separate a path from its timestamp.
pub open spec fn is_space(c: char) -> bool {
    let u = c as u32;
    (0x09 <= u && u <= 0x0d) || u == 0x20 || u == 0x85 || u == 0xa0 || u == 0x1680 || (0x2000 <= u
        && u <= 0x200a) || u == 0x2028 || u == 0x2029 || u == 0x202f || u == 0x205f || u == 0x3000
}

pub open spec fn is_digit(c: char) -> bool {
    0x30 <= (c as u32) && (c as u32) <= 0x39
}

/// Length of the run of decimal digits that ends `l`.
pub open spec fn trailing_digits(l: Seq<char>) -> nat
    decreases l.len(),
{
    if l.len() == 0 || !is_digit(l.last()) {
        0
    } else {
        1 + trailing_digits(l.drop_last())
    }
}

/// The number that decimal digits `d` spell.
pub open spec fn decimal_value(d: Seq<char>) -> nat
    decreases d.len(),
{
    if d.len() == 0 {
        0
    } else {
        decimal_value(d.drop_last()) * 10 + ((d.last() as u32) - 0x30) as nat
    }
}

/// One catalog line read as `<path><white space><digits>`: the digits are the
/// run that ends the line, the white space is the one character before them,
/// and the path, which may not be empty, is everything before that.
pub open spec fn parse_line(l: Seq<char>) -> Option<EntryView> {
    let d = trailing_digits(l);
    if d == 0 || l.len() < d + 2 || !is_space(l[l.len() - d - 1]) {
        None
    } else {
        let v = decimal_value(l.subrange(l.len() - d, l.len() as int));
        if v > i64::MAX {
            None
        } else {
            Some((l.subrange(0, l.len() - d - 1), v as i64))
        }
    }
}

pub open spec fn first_newline(t: Seq<char>) -> Option<nat>
    decreases t.len(),
{
    if t.len() == 0 {
        None
    } else if t[0] == '\n' {
        Some(0)
    } else {
        match first_newline(t.drop_first()) {
            Some(j) => Some(j + 1),
            None => None,
        }
    }
}

/// A line ended by `\r\n` loses the `\r`.
pub open spec fn strip_cr(l: Seq<char>) -> Seq<char> {
    if l.len() > 0 && l.last() == '\r' {
        l.drop_last()
    } else {
        l
    }
}

/// The lines of `t`: split at each `\n`; a final `\n` ends the last line
/// rather than starting an empty one.
pub open spec fn text_lines(t: Seq<char>) -> Seq<Seq<char>>
    decreases t.len(),
{
    if t.len() == 0 {
        Seq::empty()
    } else {
        match first_newline(t) {
            None => seq![t],
            Some(k) => if k < t.len() {
                seq![strip_cr(t.subrange(0, k as int))] + text_lines(t.subrange(k as int + 1, t.len() as int))
            } else {
                Seq::empty()
            },
        }
    }
}

pub open spec fn parse_lines(ls: Seq<Seq<char>>) -> Option<Seq<EntryView>>
    decreases ls.len(),
{
    if ls.len() == 0 {
        Some(Seq::empty())
    } else {
        match (parse_line(ls[0]), parse_lines(ls.drop_first())) {
            (Some(e), Some(rest)) => Some(seq![e] + rest),
            _ => None,
        }
    }
}

/// The entries that catalog text `t` holds, or `None` if a line is malformed.
pub open spec fn parse_catalog(t: Seq<char>) -> Option<Seq<EntryView>> {
    parse_lines(text_lines(t))
}

pub open spec fn digit_char(d: nat) -> char {
    seq!['0', '1', '2', '3', '4', '5', '6', '7', '8', '9'][d as int]
}

/// `v` in decimal without leading zeros.
pub open spec fn decimal(v: nat) -> Seq<char>
    decreases v,
{
    if v < 10 {
        seq![digit_char(v)]
    } else {
        decimal(v / 10).push(digit_char(v % 10))
    }
}

pub open spec fn timestamp_text(t: i64) -> Seq<char> {
    if t < 0 {
        seq!['-'] + decimal((-t) as nat)
    } else {
        decimal(t as nat)
    }
}

/// The line that stores `e`.
pub open spec fn entry_line(e: EntryView) -> Seq<char> {
    e.0 + seq![' '] + timestamp_text(e.1) + seq!['\n']
}

/// The text that stores the entries `es`, one line each, in order.
pub open spec fn catalog_text(es: Seq<EntryView>) -> Seq<char>
    decreases es.len(),
{
    if es.len() == 0 {
        Seq::empty()
    } else {
        entry_line(es[0]) + catalog_text(es.drop_first())
    }
}

/// An entry that its line gives back: a non-empty path without line breaks
/// and a timestamp not before the epoch.
pub open spec fn storable(e: EntryView) -> bool {
    e.0.len() > 0 && (forall|i: int| 0 <= i < e.0.len() ==> e.0[i] != '\n') && e.1 >= 0
}

proof fn lemma_digit_char(d: nat)
    requires
        d < 10,
    ensures
        digit_char(d) as u32 == 0x30 + d,
        is_digit(digit_char(d)),
        !is_space(digit_char(d)),
        digit_char(d) != '\n',
        digit_char(d) != '\r',
{
    let t = seq!['0', '1', '2', '3', '4', '5', '6', '7', '8', '9'];
    assert(t[0] == '0' && t[1] == '1' && t[2] == '2' && t[3] == '3' && t[4] == '4');
    assert(t[5] == '5' && t[6] == '6' && t[7] == '7' && t[8] == '8' && t[9] == '9');
}

proof fn lemma_decimal_digits(v: nat)
    ensures
        decimal(v).len() > 0,
        forall|i: int| 0 <= i < decimal(v).len() ==> is_digit(#[trigger] decimal(v)[i]),
        forall|i: int| 0 <= i < decimal(v).len() ==> decimal(v)[i] != '\n',
        decimal_value(decimal(v)) == v,
    decreases v,
{
    if v < 10 {
        lemma_digit_char(v);
        assert(decimal(v).drop_last() =~= Seq::<char>::empty());
        assert(decimal_value(Seq::<char>::empty()) == 0);
        assert(decimal(v).last() == digit_char(v));
    } else {
        lemma_decimal_digits(v / 10);
        lemma_digit_char(v % 10);
        let d = decimal(v);
        assert(d.drop_last() =~= decimal(v / 10));
        assert forall|i: int| 0 <= i < d.len() implies is_digit(#[trigger] d[i]) && d[i] != '\n' by {
            if i < d.len() - 1 {
                assert(d[i] == decimal(v / 10)[i]);
            }
        }
        assert(d.last() == digit_char(v % 10));
        assert(decimal_value(d) == decimal_value(decimal(v / 10)) * 10 + v % 10);
        assert((v / 10) * 10 + v % 10 == v) by (nonlinear_arith);
    }
}

proof fn lemma_trailing_digits(a: Seq<char>, d: Seq<char>)
    requires
        a.len() > 0,
        !is_digit(a.last()),
        forall|i: int| 0 <= i < d.len() ==> is_digit(#[trigger] d[i]),
    ensures
        trailing_digits(a + d) == d.len(),
    decreases d.len(),
{
    if d.len() == 0 {
        assert(a + d =~= a);
    } else {
        assert forall|i: int| 0 <= i < d.drop_last().len() implies is_digit(#[trigger] d.drop_last()[i]) by {
            assert(d.drop_last()[i] == d[i]);
        }
        lemma_trailing_digits(a, d.drop_last());
        assert((a + d).drop_last() =~= a + d.drop_last());
        assert(is_digit(d[d.len() - 1]));
    }
}

proof fn lemma_first_newline_at(a: Seq<char>, b: Seq<char>)
    requires
        forall|i: int| 0 <= i < a.len() ==> a[i] != '\n',
        b.len() > 0,
        b[0] == '\n',
    ensures
        first_newline(a + b) == Some(a.len()),
    decreases a.len(),
{
    if a.len() == 0 {
        assert(a + b =~= b);
    } else {
        assert forall|i: int| 0 <= i < a.drop_first().len() implies a.drop_first()[i] != '\n' by {
            assert(a.drop_first()[i] == a[i + 1]);
        }
        lemma_first_newline_at(a.drop_first(), b);
        assert((a + b).drop_first() =~= a.drop_first() + b);
        assert((a + b)[0] == a[0]);
    }
}

proof fn lemma_line_round_trip(e: EntryView)
    requires
        storable(e),
    ensures
        parse_line(e.0 + seq![' '] + decimal(e.1 as nat)) == Some(e),
{
    let d = decimal(e.1 as nat);
    lemma_decimal_digits(e.1 as nat);
    let a = e.0 + seq![' '];
    let l = a + d;
    assert(!is_digit(' '));
    lemma_trailing_digits(a, d);
    assert(l.subrange(l.len() - d.len(), l.len() as int) =~= d);
    assert(l[l.len() - d.len() - 1] == ' ');
    assert(is_space(' '));
    assert(l.subrange(0, l.len() - d.len() - 1) =~= e.0);
}

/// A line of text without breaks, followed by a break and more text.
proof fn lemma_text_lines_step(body: Seq<char>, rest: Seq<char>)
    requires
        forall|i: int| 0 <= i < body.len() ==> body[i] != '\n',
        body.len() > 0,
        body.last() != '\r',
    ensures
        text_lines(body + seq!['\n'] + rest) == seq![body] + text_lines(rest),
{
    let t = body + seq!['\n'] + rest;
    assert(t =~= body + (seq!['\n'] + rest));
    lemma_first_newline_at(body, seq!['\n'] + rest);
    assert(t.subrange(0, body.len() as int) =~= body);
    assert(t.subrange(body.len() as int + 1, t.len() as int) =~= rest);
}

proof fn lemma_parse_lines_step(l: Seq<char>, ls: Seq<Seq<char>>, e: EntryView, es: Seq<EntryView>)
    requires
        parse_line(l) == Some(e),
        parse_lines(ls) == Some(es),
    ensures
        parse_lines(seq![l] + ls) == Some(seq![e] + es),
{
    assert((seq![l] + ls).drop_first() =~= ls);
    assert((seq![l] + ls)[0] == l);
}

/// Storing entries as text and reading the text back gives the same entries.
pub proof fn lemma_catalog_round_trip(es: Seq<EntryView>)
    requires
        forall|i: int| 0 <= i < es.len() ==> storable(#[trigger] es[i]),
    ensures
        parse_catalog(catalog_text(es)) == Some(es),
    decreases es.len(),
{
    if es.len() > 0 {
        let e = es[0];
        assert(storable(es[0]));
        let rest = es.drop_first();
        assert forall|i: int| 0 <= i < rest.len() implies storable(#[trigger] rest[i]) by {
            assert(rest[i] == es[i + 1]);
        }
        lemma_catalog_round_trip(rest);
        let dv = decimal(e.1 as nat);
        let body = e.0 + seq![' '] + dv;
        lemma_decimal_digits(e.1 as nat);
        assert(catalog_text(es) == entry_line(e) + catalog_text(rest));
        assert(entry_line(e) =~= body + seq!['\n']);
        assert forall|i: int| 0 <= i < body.len() implies body[i] != '\n' by {
            if i > e.0.len() {
                assert(body[i] == dv[i - e.0.len() - 1]);
            }
        }
        assert(body.last() == dv[dv.len() - 1]);
        lemma_digit_char(0);
        assert(is_digit(dv[dv.len() - 1]));
        lemma_text_lines_step(body, catalog_text(rest));
        lemma_line_round_trip(e);
        assert(strip_cr(body) == body);
        lemma_parse_lines_step(body, text_lines(catalog_text(rest)), e, rest);
        assert(seq![e] + rest =~= es);
    } else {
        assert(catalog_text(es) == Seq::<char>::empty());
    }
}

proof fn lemma_first_within_bound(es: Seq<EntryView>, threshold: int)
    ensures
        first_within(es, threshold) matches Some(j) ==> j < es.len() && es[j as int].1 <= threshold,
        first_within(es, threshold) matches Some(j) ==> forall|k: int|
            0 <= k < j ==> es[k].1 > threshold,
        first_within(es, threshold) is None ==> forall|k: int| 0 <= k < es.len() ==> es[k].1 > threshold,
    decreases es.len(),
{
    if es.len() > 0 {
        lemma_first_within_bound(es.drop_first(), threshold);
        if es[0].1 > threshold {
            assert forall|k: int| 1 <= k < es.len() implies es[k] == es.drop_first()[k - 1] by {}
        }
    }
}

/// A copy of `s`.
fn copy_chars(s: &[char]) -> (r: Vec<char>)
    ensures
        r@ == s@,
{
    let mut out: Vec<char> = Vec::new();
    let mut i: usize = 0;
    while i < s.len()
        invariant
            i <= s@.len(),
            out@ == s@.subrange(0, i as int),
        decreases s.len() - i,
    {
        out.push(s[i]);
        proof {
            assert(s@.subrange(0, i + 1) =~= s@.subrange(0, i as int).push(s@[i as int]));
        }
        i = i + 1;
    }
    proof {
        assert(s@.subrange(0, s@.len() as int) =~= s@);
    }
    out
}

/// A line with the white space before its timestamp replaced by one space.
pub open spec fn normalized_line(l: Seq<char>) -> Seq<char> {
    let k = l.len() - trailing_digits(l) - 1;
    l.subrange(0, k) + seq![' '] + l.subrange(k + 1, l.len() as int)
}

/// Lines, each normalized and ended by `\n`.
pub open spec fn normalized_text(ls: Seq<Seq<char>>) -> Seq<char>
    decreases ls.len(),
{
    if ls.len() == 0 {
        Seq::empty()
    } else {
        normalized_line(ls[0]) + seq!['\n'] + normalized_text(ls.drop_first())
    }
}

/// A line whose timestamp has no leading zero.
pub open spec fn canonical_digits(l: Seq<char>) -> bool {
    let d = trailing_digits(l);
    d == 1 || (d > 1 && (l[l.len() - d] as u32) != 0x30)
}

proof fn lemma_trailing_digits_are_digits(l: Seq<char>)
    ensures
        trailing_digits(l) <= l.len(),
        forall|i: int| l.len() - trailing_digits(l) <= i < l.len() ==> is_digit(#[trigger] l[i]),
    decreases l.len(),
{
    if l.len() > 0 && is_digit(l.last()) {
        lemma_trailing_digits_are_digits(l.drop_last());
        assert forall|i: int| l.len() - trailing_digits(l) <= i < l.len() implies is_digit(#[trigger] l[i]) by {
            if i < l.len() - 1 {
                assert(l[i] == l.drop_last()[i]);
            }
        }
    }
}

proof fn lemma_digit_char_of(c: char)
    requires
        is_digit(c),
    ensures
        digit_char(((c as u32) - 0x30) as nat) == c,
{
    let t = seq!['0', '1', '2', '3', '4', '5', '6', '7', '8', '9'];
    assert(t[0] == '0' && t[1] == '1' && t[2] == '2' && t[3] == '3' && t[4] == '4');
    assert(t[5] == '5' && t[6] == '6' && t[7] == '7' && t[8] == '8' && t[9] == '9');
    let u = c as u32;
    assert(u == 0x30 || u == 0x31 || u == 0x32 || u == 0x33 || u == 0x34 || u == 0x35 || u == 0x36
        || u == 0x37 || u == 0x38 || u == 0x39);
    assert(c == '0' || c == '1' || c == '2' || c == '3' || c == '4' || c == '5' || c == '6' || c == '7' || c == '8' || c == '9');
}

/// Digits without a leading zero are the decimal text of their value.
proof fn lemma_decimal_of_value(d: Seq<char>)
    requires
        d.len() > 0,
        forall|i: int| 0 <= i < d.len() ==> is_digit(#[trigger] d[i]),
        d.len() == 1 || (d[0] as u32) != 0x30,
    ensures
        decimal(decimal_value(d)) == d,
    decreases d.len(),
{
    let c = d.last();
    assert(is_digit(d[d.len() - 1]));
    lemma_digit_char_of(c);
    let init = d.drop_last();
    if d.len() == 1 {
        assert(init =~= Seq::<char>::empty());
        assert(decimal_value(init) == 0);
        assert(decimal(decimal_value(d)) =~= seq![c]);
        assert(seq![c] =~= d);
    } else {
        assert forall|i: int| 0 <= i < init.len() implies is_digit(#[trigger] init[i]) by {
            assert(init[i] == d[i]);
        }
        assert(init[0] == d[0]);
        lemma_decimal_of_value(init);
        lemma_decimal_value_prefix(init, 1);
        let first = init.subrange(0, 1);
        assert(first.drop_last() =~= Seq::<char>::empty());
        assert(first.last() == d[0]);
        assert(is_digit(d[0]));
        assert(decimal_value(Seq::<char>::empty()) == 0);
        assert(decimal_value(first) == ((d[0] as u32) - 0x30) as nat);
        assert(decimal_value(first) >= 1);
        let v = decimal_value(d);
        let w = decimal_value(init);
        let k = ((c as u32) - 0x30) as nat;
        assert(v == w * 10 + k);
        assert(k < 10);
        assert(v / 10 == w && v % 10 == k) by (nonlinear_arith)
            requires
                v == w * 10 + k,
                k < 10,
        ;
        assert(v >= 10);
        assert(decimal(v) == decimal(w).push(digit_char(k)));
        assert(init.push(c) =~= d);
    }
}

/// Reading catalog text and writing it back gives the same text with each
/// line's separator made one space and each line ended by `\n`, for text
/// whose timestamps have no leading zeros.
pub proof fn lemma_text_normalizes(t: Seq<char>)
    requires
        parse_catalog(t) is Some,
        forall|i: int| 0 <= i < text_lines(t).len() ==> canonical_digits(#[trigger] text_lines(t)[i]),
    ensures
        catalog_text(parse_catalog(t)->0) == normalized_text(text_lines(t)),
{
    lemma_lines_normalize(text_lines(t));
}

/// Length of the run of white space that ends `l`.
pub open spec fn trailing_spaces(l: Seq<char>) -> nat
    decreases l.len(),
{
    if l.len() == 0 || !is_space(l.last()) {
        0
    } else {
        1 + trailing_spaces(l.drop_last())
    }
}

/// A line with the whole run of white space before its timestamp made one
/// space.
pub open spec fn run_normalized_line(l: Seq<char>) -> Seq<char> {
    let d = trailing_digits(l);
    let head = l.subrange(0, l.len() - d);
    let w = trailing_spaces(head);
    head.subrange(0, head.len() - w) + seq![' '] + l.subrange(l.len() - d, l.len() as int)
}

/// The lines of a text, each with its separating run made one space.
pub open spec fn run_normalized_lines(t: Seq<char>) -> Seq<Seq<char>> {
    text_lines(t).map_values(|l: Seq<char>| run_normalized_line(l))
}

proof fn lemma_trailing_spaces_le(l: Seq<char>)
    ensures
        trailing_spaces(l) <= l.len(),
    decreases l.len(),
{
    if l.len() > 0 && is_space(l.last()) {
        lemma_trailing_spaces_le(l.drop_last());
    }
}

proof fn lemma_first_newline_bound(t: Seq<char>)
    ensures
        first_newline(t) matches Some(k) ==> k < t.len() && t[k as int] == '\n' && forall|j: int|
            0 <= j < k ==> t[j] != '\n',
        first_newline(t) is None ==> forall|j: int| 0 <= j < t.len() ==> t[j] != '\n',
    decreases t.len(),
{
    if t.len() > 0 {
        lemma_first_newline_bound(t.drop_first());
        assert forall|j: int| 1 <= j < t.len() implies t[j] == t.drop_first()[j - 1] by {}
    }
}

/// No line of a text holds a line break.
proof fn lemma_text_lines_clean(t: Seq<char>)
    ensures
        forall|i: int, j: int|
            0 <= i < text_lines(t).len() && 0 <= j < text_lines(t)[i].len() ==> text_lines(t)[i][j]
                != '\n',
    decreases t.len(),
{
    if t.len() > 0 {
        lemma_first_newline_bound(t);
        match first_newline(t) {
            None => {
                assert(text_lines(t) == seq![t]);
            },
            Some(k) => {
                let rest = t.subrange(k as int + 1, t.len() as int);
                lemma_text_lines_clean(rest);
                let first = strip_cr(t.subrange(0, k as int));
                assert(text_lines(t) == seq![first] + text_lines(rest));
                assert forall|i: int, j: int|
                    0 <= i < text_lines(t).len() && 0 <= j < text_lines(t)[i].len() implies text_lines(
                    t,
                )[i][j] != '\n' by {
                    if i == 0 {
                        assert(text_lines(t)[0] == first);
                        assert(first[j] == t[j]);
                    } else {
                        assert(text_lines(t)[i] == text_lines(rest)[i - 1]);
                    }
                }
            },
        }
    }
}

proof fn lemma_parse_lines_each(ls: Seq<Seq<char>>)
    requires
        parse_lines(ls) is Some,
    ensures
        forall|i: int| 0 <= i < ls.len() ==> parse_line(#[trigger] ls[i]) is Some,
    decreases ls.len(),
{
    if ls.len() > 0 {
        lemma_parse_lines_each(ls.drop_first());
        assert forall|i: int| 0 <= i < ls.len() implies parse_line(#[trigger] ls[i]) is Some by {
            if i > 0 {
                assert(ls[i] == ls.drop_first()[i - 1]);
            }
        }
    }
}

/// Making one separator character a space leaves the run-normalized line alone.
proof fn lemma_run_normalized_stable(l: Seq<char>)
    requires
        parse_line(l) is Some,
        forall|j: int| 0 <= j < l.len() ==> l[j] != '\n',
    ensures
        run_normalized_line(normalized_line(l)) == run_normalized_line(l),
        forall|j: int| 0 <= j < normalized_line(l).len() ==> normalized_line(l)[j] != '\n',
        normalized_line(l).len() > 0,
        normalized_line(l).last() != '\r',
{
    let d = trailing_digits(l);
    let k = l.len() - d - 1;
    let n = normalized_line(l);
    lemma_trailing_digits_are_digits(l);
    let ds = l.subrange(l.len() - d, l.len() as int);
    assert forall|i: int| 0 <= i < ds.len() implies is_digit(#[trigger] ds[i]) by {
        assert(ds[i] == l[l.len() - d + i]);
    }
    let a = l.subrange(0, k) + seq![' '];
    assert(n =~= a + ds);
    assert(!is_digit(' '));
    lemma_trailing_digits(a, ds);
    assert(n.subrange(0, n.len() - d) =~= a);
    assert(n.subrange(n.len() - d, n.len() as int) =~= ds);
    let head = l.subrange(0, l.len() - d);
    assert(head.drop_last() =~= l.subrange(0, k));
    assert(a.drop_last() =~= l.subrange(0, k));
    assert(is_space(head.last()));
    assert(is_space(' '));
    assert(trailing_spaces(head) == 1 + trailing_spaces(l.subrange(0, k)));
    assert(trailing_spaces(a) == 1 + trailing_spaces(l.subrange(0, k)));
    lemma_trailing_spaces_le(l.subrange(0, k));
    let w = trailing_spaces(head);
    assert(head.subrange(0, head.len() - w) =~= a.subrange(0, a.len() - w));
    assert(is_digit(ds[d - 1]));
    assert(n.last() == ds[d - 1]);
    assert forall|j: int| 0 <= j < n.len() implies n[j] != '\n' by {
        if j < k {
            assert(n[j] == l[j]);
        } else if j > k {
            assert(n[j] == l[j]);
        }
    }
}

proof fn lemma_lines_of_normalized(ls: Seq<Seq<char>>)
    requires
        forall|i: int| 0 <= i < ls.len() ==> parse_line(#[trigger] ls[i]) is Some,
        forall|i: int, j: int| 0 <= i < ls.len() && 0 <= j < ls[i].len() ==> ls[i][j] != '\n',
    ensures
        text_lines(normalized_text(ls)) == ls.map_values(|l: Seq<char>| normalized_line(l)),
    decreases ls.len(),
{
    if ls.len() == 0 {
        assert(normalized_text(ls) == Seq::<char>::empty());
        assert(ls.map_values(|l: Seq<char>| normalized_line(l)) =~= Seq::<Seq<char>>::empty());
    } else {
        let rest = ls.drop_first();
        assert forall|i: int| 0 <= i < rest.len() implies parse_line(#[trigger] rest[i]) is Some by {
            assert(rest[i] == ls[i + 1]);
        }
        assert forall|i: int, j: int| 0 <= i < rest.len() && 0 <= j < rest[i].len() implies rest[i][j]
            != '\n' by {
            assert(rest[i] == ls[i + 1]);
        }
        lemma_lines_of_normalized(rest);
        assert(parse_line(ls[0]) is Some);
        assert forall|j: int| 0 <= j < ls[0].len() implies ls[0][j] != '\n' by {}
        lemma_run_normalized_stable(ls[0]);
        lemma_text_lines_step(normalized_line(ls[0]), normalized_text(rest));
        assert(normalized_text(ls) == normalized_line(ls[0]) + seq!['\n'] + normalized_text(rest));
        assert(ls.map_values(|l: Seq<char>| normalized_line(l)) =~= seq![normalized_line(ls[0])]
            + rest.map_values(|l: Seq<char>| normalized_line(l)));
    }
}

/// Reading catalog text and writing it back keeps every line, with the run of
/// white space before each timestamp normalized to one space on both sides,
/// for text whose timestamps have no leading zeros.
pub proof fn lemma_text_normalizes_runs(t: Seq<char>)
    requires
        parse_catalog(t) is Some,
        forall|i: int| 0 <= i < text_lines(t).len() ==> canonical_digits(#[trigger] text_lines(t)[i]),
    ensures
        run_normalized_lines(catalog_text(parse_catalog(t)->0)) == run_normalized_lines(t),
{
    let ls = text_lines(t);
    lemma_text_normalizes(t);
    lemma_parse_lines_each(ls);
    lemma_text_lines_clean(t);
    lemma_lines_of_normalized(ls);
    let w = catalog_text(parse_catalog(t)->0);
    assert(text_lines(w) == ls.map_values(|l: Seq<char>| normalized_line(l)));
    assert forall|i: int| 0 <= i < ls.len() implies run_normalized_line(normalized_line(#[trigger] ls[i]))
        == run_normalized_line(ls[i]) by {
        assert forall|j: int| 0 <= j < ls[i].len() implies ls[i][j] != '\n' by {}
        lemma_run_normalized_stable(ls[i]);
    }
    assert(run_normalized_lines(w) =~= run_normalized_lines(t));
}

proof fn lemma_lines_normalize(ls: Seq<Seq<char>>)
    requires
        parse_lines(ls) is Some,
        forall|i: int| 0 <= i < ls.len() ==> canonical_digits(#[trigger] ls[i]),
    ensures
        catalog_text(parse_lines(ls)->0) == normalized_text(ls),
    decreases ls.len(),
{
    if ls.len() > 0 {
        let l = ls[0];
        let rest = ls.drop_first();
        assert(canonical_digits(ls[0]));
        assert forall|i: int| 0 <= i < rest.len() implies canonical_digits(#[trigger] rest[i]) by {
            assert(rest[i] == ls[i + 1]);
        }
        let e = parse_line(l)->0;
        let es = parse_lines(rest)->0;
        lemma_lines_normalize(rest);
        assert(parse_lines(ls)->0 == seq![e] + es);
        assert((seq![e] + es).drop_first() =~= es);
        assert((seq![e] + es)[0] == e);
        let d = trailing_digits(l);
        let k = l.len() - d - 1;
        let ds = l.subrange(l.len() - d, l.len() as int);
        lemma_trailing_digits_are_digits(l);
        assert forall|i: int| 0 <= i < ds.len() implies is_digit(#[trigger] ds[i]) by {
            assert(ds[i] == l[l.len() - d + i]);
        }
        assert(ds[0] == l[l.len() - d]);
        lemma_decimal_of_value(ds);
        assert(e.1 >= 0);
        assert(timestamp_text(e.1) == decimal(e.1 as nat));
        assert(e.0 == l.subrange(0, k));
        assert(l.subrange(k + 1, l.len() as int) =~= ds);
        assert(entry_line(e) =~= normalized_line(l) + seq!['\n']);
        assert(catalog_text(seq![e] + es) == entry_line(e) + catalog_text(es));
        assert(catalog_text(seq![e] + es) =~= normalized_text(ls));
    }
}

/// `o` with `v` in front of the entries it holds.
pub open spec fn prefixed(v: Seq<EntryView>, o: Option<Seq<EntryView>>) -> Option<Seq<EntryView>> {
    match o {
        Some(r) => Some(v + r),
        None => None,
    }
}

proof fn lemma_no_newline(t: Seq<char>)
    requires
        forall|i: int| 0 <= i < t.len() ==> t[i] != '\n',
    ensures
        first_newline(t) is None,
    decreases t.len(),
{
    if t.len() > 0 {
        assert forall|i: int| 0 <= i < t.drop_first().len() implies t.drop_first()[i] != '\n' by {
            assert(t.drop_first()[i] == t[i + 1]);
        }
        lemma_no_newline(t.drop_first());
    }
}

proof fn lemma_decimal_value_prefix(s: Seq<char>, k: int)
    requires
        0 <= k <= s.len(),
        forall|i: int| 0 <= i < s.len() ==> is_digit(#[trigger] s[i]),
    ensures
        decimal_value(s.subrange(0, k)) <= decimal_value(s),
    decreases s.len(),
{
    if k < s.len() {
        let init = s.drop_last();
        assert forall|i: int| 0 <= i < init.len() implies is_digit(#[trigger] init[i]) by {
            assert(init[i] == s[i]);
        }
        lemma_decimal_value_prefix(init, k);
        assert(init.subrange(0, k) =~= s.subrange(0, k));
    } else {
        assert(s.subrange(0, k) =~= s);
    }
}

proof fn lemma_catalog_text_push(es: Seq<EntryView>, e: EntryView)
    ensures
        catalog_text(es.push(e)) == catalog_text(es) + entry_line(e),
    decreases es.len(),
{
    if es.len() == 0 {
        assert(es.push(e).drop_first() =~= Seq::<EntryView>::empty());
        assert(es.push(e)[0] == e);
        assert(catalog_text(Seq::<EntryView>::empty()) == Seq::<char>::empty());
        assert(catalog_text(es.push(e)) == entry_line(e) + catalog_text(Seq::<EntryView>::empty()));
        assert(catalog_text(es.push(e)) =~= entry_line(e) + Seq::<char>::empty());
        assert(catalog_text(es) == Seq::<char>::empty());
        assert(catalog_text(es.push(e)) =~= catalog_text(es) + entry_line(e));
    } else {
        lemma_catalog_text_push(es.drop_first(), e);
        assert(es.push(e).drop_first() =~= es.drop_first().push(e));
        assert(es.push(e)[0] == es[0]);
        assert(catalog_text(es.push(e)) =~= catalog_text(es) + entry_line(e));
    }
}

fn is_space_char(c: char) -> (r: bool)
    ensures
        r == is_space(c),
{
    let u = c as u32;
    (0x09 <= u && u <= 0x0d) || u == 0x20 || u == 0x85 || u == 0xa0 || u == 0x1680 || (0x2000 <= u
        && u <= 0x200a) || u == 0x2028 || u == 0x2029 || u == 0x202f || u == 0x205f || u == 0x3000
}

fn is_digit_char(c: char) -> (r: bool)
    ensures
        r == is_digit(c),
{
    0x30 <= (c as u32) && (c as u32) <= 0x39
}

/// The entry that `text[from..to]` holds as a line.
fn parse_line_at(text: &[char], from: usize, to: usize) -> (r: Option<Entry>)
    requires
        from <= to <= text@.len(),
    ensures
        r is Some == parse_line(text@.subrange(from as int, to as int)) is Some,
        r matches Some(e) ==> parse_line(text@.subrange(from as int, to as int)) == Some(e@),
{
    let ghost l = text@.subrange(from as int, to as int);
    let mut j: usize = to;
    while j > from && is_digit_char(text[j - 1])
        invariant
            from <= j <= to <= text@.len(),
            l == text@.subrange(from as int, to as int),
            trailing_digits(l) == (to - j) + trailing_digits(text@.subrange(from as int, j as int)),
            forall|i: int| j <= i < to ==> is_digit(#[trigger] text@[i]),
        decreases j - from,
    {
        proof {
            let m = text@.subrange(from as int, j as int);
            assert(m.drop_last() =~= text@.subrange(from as int, j - 1));
            assert(m.last() == text@[j - 1]);
        }
        j = j - 1;
    }
    proof {
        let m = text@.subrange(from as int, j as int);
        if j > from {
            assert(m.last() == text@[j - 1]);
        }
        assert(trailing_digits(m) == 0);
    }
    let d = to - j;
    if d == 0 || j - from < 2 {
        return None;
    }
    proof {
        assert(l[l.len() - d - 1] == text@[j - 1]);
    }
    if !is_space_char(text[j - 1]) {
        return None;
    }
    let ghost ds = text@.subrange(j as int, to as int);
    proof {
        assert(ds =~= l.subrange(l.len() - d, l.len() as int));
    }
    let mut v: u128 = 0;
    let mut k: usize = j;
    while k < to
        invariant
            j <= k <= to <= text@.len(),
            ds == text@.subrange(j as int, to as int),
            l == text@.subrange(from as int, to as int),
            from + 2 <= j,
            trailing_digits(l) == to - j,
            to - j >= 1,
            is_space(l[l.len() - (to - j) - 1]),
            ds == l.subrange(l.len() - (to - j), l.len() as int),
            forall|i: int| j <= i < to ==> is_digit(#[trigger] text@[i]),
            v as nat == decimal_value(text@.subrange(j as int, k as int)),
            v <= i64::MAX,
        decreases to - k,
    {
        let c = text[k];
        proof {
            assert(is_digit(text@[k as int]));
            let m = text@.subrange(j as int, k + 1);
            assert(m.drop_last() =~= text@.subrange(j as int, k as int));
            assert(m.last() == c);
        }
        v = v * 10 + ((c as u32) - 0x30) as u128;
        proof {
            assert(v as nat == decimal_value(text@.subrange(j as int, k + 1)));
        }
        if v > 0x7fff_ffff_ffff_ffffu128 {
            proof {
                assert forall|i: int| 0 <= i < ds.len() implies is_digit(#[trigger] ds[i]) by {
                    assert(ds[i] == text@[j + i]);
                }
                lemma_decimal_value_prefix(ds, k + 1 - j);
                assert(ds.subrange(0, k + 1 - j) =~= text@.subrange(j as int, k + 1));
            }
            return None;
        }
        k = k + 1;
    }
    let mut path: Vec<char> = Vec::new();
    let mut p: usize = from;
    while p < j - 1
        invariant
            from <= p <= j - 1,
            j <= to <= text@.len(),
            path@ == text@.subrange(from as int, p as int),
        decreases j - 1 - p,
    {
        path.push(text[p]);
        proof {
            assert(text@.subrange(from as int, p + 1) =~= text@.subrange(from as int, p as int).push(
                text@[p as int],
            ));
        }
        p = p + 1;
    }
    proof {
        assert(path@ =~= l.subrange(0, l.len() - d - 1));
    }
    Some(Entry { path, timestamp: v as i64 })
}

/// `v` in decimal, appended to `out`.
fn push_decimal(out: &mut Vec<char>, v: u64)
    ensures
        final(out)@ == old(out)@ + decimal(v as nat),
    decreases v,
{
    if v >= 10 {
        push_decimal(out, v / 10);
    }
    let c = match v % 10 {
        0 => '0',
        1 => '1',
        2 => '2',
        3 => '3',
        4 => '4',
        5 => '5',
        6 => '6',
        7 => '7',
        8 => '8',
        _ => '9',
    };
    out.push(c);
    proof {
        let t = seq!['0', '1', '2', '3', '4', '5', '6', '7', '8', '9'];
        assert(t[0] == '0' && t[1] == '1' && t[2] == '2' && t[3] == '3' && t[4] == '4');
        assert(t[5] == '5' && t[6] == '6' && t[7] == '7' && t[8] == '8' && t[9] == '9');
        assert(c == digit_char((v % 10) as nat));
        if v >= 10 {
            assert(decimal(v as nat) == decimal((v / 10) as nat).push(c));
        } else {
            assert(decimal(v as nat) == seq![c]);
        }
    }
}

impl BackupCatalog {
    pub fn empty() -> (r: BackupCatalog)
        ensures
            r@ == Seq::<EntryView>::empty(),
    {
        let r = BackupCatalog { entries: Vec::new() };
        proof {
            assert(r@ =~= Seq::<EntryView>::empty());
        }
        r
    }

    pub fn len(&self) -> (r: usize)
        ensures
            r == self@.len(),
    {
        self.entries.len()
    }

    /// The entry at `i`, counting from the most recent.
    pub fn entry(&self, i: usize) -> (r: &Entry)
        requires
            i < self@.len(),
        ensures
            r@ == self@[i as int],
    {
        &self.entries[i]
    }

    /// Reads catalog text, one entry per line.
    pub fn new(text: &[char]) -> (r: Result<BackupCatalog, CatalogError>)
        ensures
            r is Ok == parse_catalog(text@) is Some,
            r matches Ok(c) ==> parse_catalog(text@) == Some(c@),
    {
        let n = text.len();
        let mut out: Vec<Entry> = Vec::new();
        let mut start: usize = 0;
        proof {
            assert(text@.subrange(0, n as int) =~= text@);
            assert(out@.map_values(|e: Entry| e@) =~= Seq::<EntryView>::empty());
            assert(prefixed(Seq::<EntryView>::empty(), parse_catalog(text@)) =~~= parse_catalog(text@));
        }
        while start < n
            invariant
                start <= n == text@.len(),
                parse_catalog(text@) == prefixed(
                    out@.map_values(|e: Entry| e@),
                    parse_catalog(text@.subrange(start as int, n as int)),
                ),
            decreases n - start,
        {
            let ghost t = text@.subrange(start as int, n as int);
            let mut k: usize = start;
            while k < n && text[k] != '\n'
                invariant
                    start <= k <= n == text@.len(),
                    forall|i: int| start <= i < k ==> text@[i] != '\n',
                decreases n - k,
            {
                k = k + 1;
            }
            let ghost a = text@.subrange(start as int, k as int);
            proof {
                assert forall|i: int| 0 <= i < a.len() implies a[i] != '\n' by {
                    assert(a[i] == text@[start + i]);
                }
            }
            let end: usize = if k < n && k > start && text[k - 1] == '\r' {
                k - 1
            } else {
                k
            };
            proof {
                if k < n {
                    let b = text@.subrange(k as int, n as int);
                    assert(t =~= a + b);
                    assert(b[0] == '\n');
                    lemma_first_newline_at(a, b);
                    assert(t.subrange(0, (k - start) as int) =~= a);
                    assert(t.subrange((k - start) + 1, t.len() as int) =~= text@.subrange(k + 1, n as int));
                    if k > start && text@[k - 1] == '\r' {
                        assert(a.last() == text@[k - 1]);
                        assert(a.drop_last() =~= text@.subrange(start as int, end as int));
                    }
                    assert(strip_cr(a) == text@.subrange(start as int, end as int));
                    assert(text_lines(t) == seq![text@.subrange(start as int, end as int)] + text_lines(text@.subrange(k + 1, n as int)));
                } else {
                    assert(a =~= t);
                    lemma_no_newline(t);
                    assert(text_lines(t) == seq![t]);
                    assert(text@.subrange(n as int, n as int) =~= Seq::<char>::empty());
                    assert(text_lines(Seq::<char>::empty()) =~= Seq::<Seq<char>>::empty());
                    assert(seq![t] =~= seq![t] + text_lines(Seq::<char>::empty()));
                }
            }
            let next: usize = if k < n { k + 1 } else { n };
            let ghost ls = text_lines(text@.subrange(next as int, n as int));
            proof {
                let l = text@.subrange(start as int, end as int);
                assert(text_lines(t) == seq![l] + ls);
                assert((seq![l] + ls).drop_first() =~= ls);
                assert((seq![l] + ls)[0] == l);
            }
            match parse_line_at(text, start, end) {
                None => {
                    return Err(CatalogError::ParseError);
                },
                Some(e) => {
                    let ghost before = out@.map_values(|x: Entry| x@);
                    let ghost ev = e@;
                    out.push(e);
                    proof {
                        assert(out@.map_values(|x: Entry| x@) =~= before + seq![ev]);
                        match parse_lines(ls) {
                            Some(r) => {
                                assert(before + (seq![ev] + r) =~= (before + seq![ev]) + r);
                            },
                            None => {},
                        }
                    }
                    start = next;
                },
            }
        }
        proof {
            assert(text@.subrange(n as int, n as int) =~= Seq::<char>::empty());
            assert(text_lines(Seq::<char>::empty()) =~= Seq::<Seq<char>>::empty());
            assert(out@.map_values(|x: Entry| x@) + Seq::<EntryView>::empty() =~= out@.map_values(|x: Entry| x@));
        }
        Ok(BackupCatalog { entries: out })
    }

    /// The catalog as text, one `<path> <seconds>` line per entry.
    pub fn to_text(&self) -> (r: Vec<char>)
        ensures
            r@ == catalog_text(self@),
    {
        let mut out: Vec<char> = Vec::new();
        let mut i: usize = 0;
        let ghost es = self@;
        proof {
            assert(es.subrange(0, 0) =~= Seq::<EntryView>::empty());
        }
        while i < self.entries.len()
            invariant
                i <= self.entries@.len(),
                es == self@,
                out@ == catalog_text(es.subrange(0, i as int)),
            decreases self.entries.len() - i,
        {
            let e = &self.entries[i];
            let ghost before = out@;
            let mut p: usize = 0;
            while p < e.path.len()
                invariant
                    p <= e.path@.len(),
                    out@ == before + e.path@.subrange(0, p as int),
                decreases e.path.len() - p,
            {
                out.push(e.path[p]);
                proof {
                    assert(e.path@.subrange(0, p + 1) =~= e.path@.subrange(0, p as int).push(e.path@[p as int]));
                }
                p = p + 1;
            }
            out.push(' ');
            let ghost mid = out@;
            if e.timestamp < 0 {
                out.push('-');
                push_decimal(&mut out, (0i128 - e.timestamp as i128) as u64);
            } else {
                push_decimal(&mut out, e.timestamp as u64);
            }
            out.push('\n');
            proof {
                assert(es[i as int] == e@);
                assert(e.path@.subrange(0, e.path@.len() as int) =~= e.path@);
                assert(out@ =~= before + entry_line(es[i as int]));
                lemma_catalog_text_push(es.subrange(0, i as int), es[i as int]);
                assert(es.subrange(0, i + 1) =~= es.subrange(0, i as int).push(es[i as int]));
            }
            i = i + 1;
        }
        proof {
            assert(es.subrange(0, es.len() as int) =~= es);
        }
        out
    }

    /// Records a snapshot taken at `timestamp` as the most recent entry.
    pub fn push_at(&mut self, path: &[char], timestamp: i64)
        ensures
            final(self)@ == seq![(path@, timestamp)] + old(self)@,
    {
        self.entries.insert(0, Entry::new(path, timestamp));
        proof {
            assert(self@ =~= seq![(path@, timestamp)] + old(self)@);
        }
    }

    /// Records a snapshot taken now as the most recent entry.
    pub fn push(&mut self, path: &[char])
        ensures
            final(self)@.len() == old(self)@.len() + 1,
            final(self)@[0].0 == path@,
            final(self)@.drop_first() == old(self)@,
    {
        let now = utc_now_seconds();
        self.push_at(path, now);
        proof {
            assert(self@.drop_first() =~= old(self)@);
        }
    }

    /// The path of the most recent snapshot.
    pub fn most_recent(&self) -> (r: Option<&Vec<char>>)
        ensures
            r is None == (self@.len() == 0),
            r matches Some(p) ==> p@ == self@[0].0,
    {
        if self.entries.len() > 0 {
            Some(&self.entries[0].path)
        } else {
            None
        }
    }

    /// Prunes the catalog with the buckets `keep_limits`, taken in order.
    #[verifier::rlimit(50)]
    pub fn clean(&mut self, keep_limits: Vec<KeepLimit>)
        ensures
            final(self)@ == cleaned(old(self)@, keep_limits@),
    {
        let n = self.entries.len();
        if n == 0 {
            return;
        }
        let ghost es = self@;
        let ghost limits = keep_limits@;
        let mut out: Vec<Entry> = Vec::new();
        out.push(Entry::new(&self.entries[0].path, self.entries[0].timestamp));
        let nl = keep_limits.len();
        if nl == 0 {
            self.entries = out;
            proof {
                assert(self@ =~= cleaned(es, limits));
            }
            return;
        }
        let mut anchor: i64 = self.entries[0].timestamp;
        let mut i: usize = 1;
        let mut li: usize = 0;
        let mut rc: u64 = keep_limits[0].count;
        proof {
            assert(es.drop_first() =~= es.subrange(1, n as int));
            assert(seq![KeepLimit { count: rc, timespan: limits[0].timespan }] + limits.subrange(1, nl as int) =~= limits);
            assert(out@.map_values(|e: Entry| e@) =~= seq![es[0]]);
        }
        loop
            invariant
                n == self.entries@.len(),
                es == self@,
                es == old(self)@,
                limits == keep_limits@,
                nl == limits.len(),
                1 <= i <= n,
                li < nl,
                out@.map_values(|e: Entry| e@) + retained_after(
                    es.subrange(i as int, n as int),
                    anchor as int,
                    seq![KeepLimit { count: rc, timespan: limits[li as int].timespan }] + limits.subrange(li + 1, nl as int),
                ) == cleaned(es, limits),
            decreases n - i, nl - li,
        {
            let ghost cur = seq![KeepLimit { count: rc, timespan: limits[li as int].timespan }] + limits.subrange(li + 1, nl as int);
            if rc == 0 {
                proof {
                    assert(cur.drop_first() =~= limits.subrange(li + 1, nl as int));
                }
                if li + 1 == nl {
                    proof {
                        let rest = es.subrange(i as int, n as int);
                        assert(cur[0].count == 0);
                        assert(retained_after(rest, anchor as int, cur) == retained_after(rest, anchor as int, cur.drop_first()));
                        assert(cur.drop_first().len() == 0);
                        assert(retained_after(rest, anchor as int, cur.drop_first()) == Seq::<EntryView>::empty());
                        assert(out@.map_values(|e: Entry| e@) + Seq::<EntryView>::empty() =~= out@.map_values(|e: Entry| e@));
                    }
                    self.entries = out;
                    return;
                }
                li = li + 1;
                rc = keep_limits[li].count;
                proof {
                    assert(seq![KeepLimit { count: rc, timespan: limits[li as int].timespan }] + limits.subrange(li + 1, nl as int) =~= limits.subrange(li as int, nl as int));
                }
            } else {
                let threshold: i128 = anchor as i128 - keep_limits[li].timespan as i128;
                let mut j: usize = i;
                while j < n && self.entries[j].timestamp as i128 > threshold
                    invariant
                        n == self.entries@.len(),
                        es == self@,
                        i <= j <= n,
                        forall|k: int| i <= k < j ==> es[k].1 > threshold,
                    decreases n - j,
                {
                    j = j + 1;
                }
                let ghost rest = es.subrange(i as int, n as int);
                proof {
                    lemma_first_within_bound(rest, threshold as int);
                    assert(cur[0].count == rc);
                    assert(cur[0].timespan == limits[li as int].timespan);
                }
                if j == n {
                    proof {
                        assert forall|k: int| 0 <= k < rest.len() implies rest[k].1 > threshold by {
                            assert(rest[k] == es[i + k]);
                        }
                        match first_within(rest, threshold as int) {
                            Some(f) => {
                                assert(rest[f as int].1 <= threshold);
                            },
                            None => {},
                        }
                        assert(anchor as int - cur[0].timespan as int == threshold as int);
                        assert(first_within(rest, threshold as int) is None);
                        assert(retained_after(rest, anchor as int, cur) == Seq::<EntryView>::empty());
                        assert(out@.map_values(|e: Entry| e@) + Seq::<EntryView>::empty() =~= out@.map_values(|e: Entry| e@));
                    }
                    self.entries = out;
                    return;
                }
                proof {
                    assert(es[j as int].1 <= threshold);
                    let f = first_within(rest, threshold as int);
                    assert(rest[(j - i) as int] == es[j as int]);
                    match f {
                        Some(ff) => {
                            if ff < j - i {
                                assert(rest[ff as int] == es[i + ff]);
                            }
                            if ff > j - i {
                                assert(rest[(j - i) as int].1 > threshold);
                            }
                            assert(ff == j - i);
                        },
                        None => {
                            assert(rest[(j - i) as int].1 > threshold);
                        },
                    }
                    assert(rest.subrange((j - i) + 1, rest.len() as int) =~= es.subrange(j + 1, n as int));
                    assert(cur.update(0, KeepLimit { count: (rc - 1) as u64, timespan: cur[0].timespan }) =~= seq![KeepLimit { count: (rc - 1) as u64, timespan: limits[li as int].timespan }] + limits.subrange(li + 1, nl as int));
                }
                let kept = Entry::new(&self.entries[j].path, self.entries[j].timestamp);
                let ghost before = out@.map_values(|e: Entry| e@);
                out.push(kept);
                proof {
                    assert(out@.map_values(|e: Entry| e@) =~= before + seq![es[j as int]]);
                }
                anchor = self.entries[j].timestamp;
                i = j + 1;
                rc = rc - 1;
                proof {
                    if i == n {
                        assert(es.subrange(i as int, n as int) =~= Seq::<EntryView>::empty());
                    }
                }
            }
        }
    }
}

/// Relies on chrono's `DateTime<Utc>: From<SystemTime>` and
/// `DateTime::timestamp`: the system clock read as whole seconds since the Unix
/// epoch, negative before it. The clock may give any value.
#[verifier::external_body]
fn utc_now_seconds() -> (r: i64) {
    chrono::DateTime::<chrono::Utc>::from(std::time::SystemTime::now()).timestamp()
}

} // verus!
