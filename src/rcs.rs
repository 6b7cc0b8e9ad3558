//! The RCS `,v` file reader: a byte-level parser for the admin block, the
//! delta records, the description and the delta texts.
use vstd::prelude::*;
use crate::bytes::{has_prefix, slice_copy, starts_with};
use crate::num::{Num, parse_spec, is_digit, digits_value, read_component};
use crate::ed::{digit_end, find_digit_end};
use crate::fast_import::space_end;
use vstd::string::StringSliceAdditionalSpecFns;

verus! {

// ---------------------------------------------------------------------------
// Character classes.

pub open spec fn printable(c: u8) -> bool {
    0x20 <= c < 0x7f
}

/// Whether `c` is printable ASCII.
pub fn is_printable_ascii(c: u8) -> (r: bool)
    ensures
        r == printable(c),
{
    0x20 <= c && c < 0x7f
}

/// Whether `c` is printable ASCII and not one of `exclude`.
pub fn is_printable_ascii_without(c: u8, exclude: &[u8]) -> (r: bool)
    ensures
        r == (printable(c) && !exclude@.contains(c)),
{
    let mut acc = is_printable_ascii(c);
    let mut i: usize = 0;
    while i < exclude.len()
        invariant
            i <= exclude@.len(),
            acc == (printable(c) && forall|j: int| 0 <= j < i ==> exclude@[j] != c),
        decreases exclude@.len() - i,
    {
        acc = acc && c != exclude[i];
        i = i + 1;
    }
    proof {
        if !acc && printable(c) {
            let j = choose|j: int| 0 <= j < i && exclude@[j] == c;
            assert(exclude@.contains(c));
        }
    }
    acc
}

/// An `idchar`: printable ASCII other than `$,.:;@`.
pub open spec fn idchar(c: u8) -> bool {
    printable(c) && c != 36u8 && c != 44u8 && c != 46u8 && c != 58u8 && c != 59u8 && c != 64u8
}

/// An `intchar`: printable ASCII other than `@`, or a form feed.
pub open spec fn intchar(c: u8) -> bool {
    (printable(c) && c != 64u8) || c == 0x0c
}

pub fn is_idchar(c: u8) -> (r: bool)
    ensures
        r == idchar(c),
{
    is_printable_ascii(c) && c != 36u8 && c != 44u8 && c != 46u8 && c != 58u8 && c != 59u8 && c
        != 64u8
}

pub fn is_intchar(c: u8) -> (r: bool)
    ensures
        r == intchar(c),
{
    (is_printable_ascii(c) && c != 64u8) || c == 0x0c
}

// ---------------------------------------------------------------------------
// The data model.

/// The admin block of a `,v` file.
#[derive(Debug, Clone)]
pub struct Admin {
    pub head: Option<Num>,
    pub branch: Option<Num>,
    pub access: Vec<Vec<u8>>,
    /// Symbol name and number, in file order.
    pub symbols: Vec<(Vec<u8>, Num)>,
    /// Locker and number, in file order.
    pub locks: Vec<(Vec<u8>, Num)>,
    pub strict: bool,
    pub integrity: Option<Vec<u8>>,
    pub comment: Option<Vec<u8>>,
    pub expand: Option<Vec<u8>>,
}

/// A date as written in a delta: the year is expanded, and a leap second is
/// carried as 59 seconds plus milliseconds.
#[derive(Debug, Clone, Copy, PartialEq, Eq)]
pub struct RcsDate {
    pub year: i32,
    pub month: u32,
    pub day: u32,
    pub hour: u32,
    pub minute: u32,
    pub second: u32,
    pub millis: u32,
}

/// The metadata of one revision.
#[derive(Debug, Clone)]
pub struct Delta {
    pub date: RcsDate,
    pub author: Vec<u8>,
    pub state: Option<Vec<u8>>,
    pub branches: Vec<Num>,
    pub next: Option<Num>,
    pub commit_id: Option<Vec<u8>>,
}

/// The log message and text of one revision.
#[derive(Debug, Clone)]
pub struct DeltaText {
    pub log: Vec<u8>,
    pub text: Vec<u8>,
}

/// A parsed `,v` file.
#[derive(Debug, Clone)]
pub struct File {
    pub admin: Admin,
    /// The delta records, in file order.
    pub delta: Vec<(Num, Delta)>,
    pub desc: Vec<u8>,
    /// The delta texts, in file order.
    pub delta_text: Vec<(Num, DeltaText)>,
}

/// What went wrong where.
#[derive(Debug, Clone, Copy, PartialEq, Eq)]
pub enum ParseErrorKind {
    /// An expected token is missing.
    Syntax,
    /// A revision number is malformed.
    MalformedRevision,
    /// A date names a day that does not exist.
    InvalidDate,
    /// A date names a time that does not exist.
    InvalidTime,
}

/// A parse failure: the offset of the input where it happened, and why.
#[derive(Debug, Clone, Copy, PartialEq, Eq)]
pub struct ParseError {
    pub location: usize,
    pub kind: ParseErrorKind,
}

/// Whether two numbers are equal.
pub fn num_eq(a: &Num, b: &Num) -> (r: bool)
    ensures
        r == (a.is_branch() == b.is_branch() && a.parts() == b.parts()),
{
    let (pa, ba) = match a {
        Num::Branch(p) => (p, true),
        Num::Commit(p) => (p, false),
    };
    let (pb, bb) = match b {
        Num::Branch(p) => (p, true),
        Num::Commit(p) => (p, false),
    };
    if ba != bb || pa.len() != pb.len() {
        return false;
    }
    let mut i: usize = 0;
    while i < pa.len()
        invariant
            pa@.len() == pb@.len(),
            pa@ == a.parts(),
            pb@ == b.parts(),
            i <= pa@.len(),
            forall|j: int| 0 <= j < i ==> pa@[j] == pb@[j],
        decreases pa@.len() - i,
    {
        if pa[i] != pb[i] {
            assert(a.parts()[i as int] != b.parts()[i as int]);
            return false;
        }
        i = i + 1;
    }
    assert(pa@ =~= pb@);
    true
}

pub open spec fn same_num(a: Num, b: Num) -> bool {
    a.is_branch() == b.is_branch() && a.parts() == b.parts()
}

/// The first index from `i` on whose number equals `n` (by view).
pub open spec fn key_from<V>(entries: Seq<(Num, V)>, n: (bool, Seq<u64>), i: int) -> Option<int>
    decreases entries.len() - i,
{
    if i < 0 || i >= entries.len() {
        None
    } else if entries[i].0.is_branch() == n.0 && entries[i].0.parts() == n.1 {
        Some(i)
    } else {
        key_from(entries, n, i + 1)
    }
}

/// Relates a first-match search to `key_from`.
pub proof fn lemma_key_from<V>(entries: Seq<(Num, V)>, n: Num, r: Option<usize>, i: int)
    requires
        0 <= i,
        match r {
            Some(k) => k < entries.len() && same_num(entries[k as int].0, n) && forall|j: int|
                0 <= j < k ==> !same_num(#[trigger] entries[j].0, n),
            None => forall|j: int| 0 <= j < entries.len() ==> !same_num(#[trigger] entries[j].0, n),
        },
        r matches Some(k) ==> i <= k,
    ensures
        key_from(entries, (n.is_branch(), n.parts()), i) == match r {
            Some(k) => Some(k as int),
            None => None::<int>,
        },
    decreases entries.len() - i,
{
    if i < entries.len() {
        if r != Some(i as usize) {
            assert(!same_num(entries[i].0, n));
            lemma_key_from(entries, n, r, i + 1);
        }
    }
}

pub(crate) fn find_delta(entries: &Vec<(Num, Delta)>, n: &Num) -> (r: Option<usize>)
    ensures
        match r {
            Some(i) => i < entries@.len() && same_num(entries@[i as int].0, *n) && forall|j: int|
                0 <= j < i ==> !same_num(#[trigger] entries@[j].0, *n),
            None => forall|j: int| 0 <= j < entries@.len() ==> !same_num(#[trigger] entries@[j].0, *n),
        },
{
    let mut i: usize = 0;
    while i < entries.len()
        invariant
            i <= entries@.len(),
            forall|j: int| 0 <= j < i ==> !same_num(#[trigger] entries@[j].0, *n),
        decreases entries@.len() - i,
    {
        if num_eq(&entries[i].0, n) {
            return Some(i);
        }
        i = i + 1;
    }
    None
}

pub(crate) fn find_delta_text(entries: &Vec<(Num, DeltaText)>, n: &Num) -> (r: Option<usize>)
    ensures
        match r {
            Some(i) => i < entries@.len() && same_num(entries@[i as int].0, *n) && forall|j: int|
                0 <= j < i ==> !same_num(#[trigger] entries@[j].0, *n),
            None => forall|j: int| 0 <= j < entries@.len() ==> !same_num(#[trigger] entries@[j].0, *n),
        },
{
    let mut i: usize = 0;
    while i < entries.len()
        invariant
            i <= entries@.len(),
            forall|j: int| 0 <= j < i ==> !same_num(#[trigger] entries@[j].0, *n),
        decreases entries@.len() - i,
    {
        if num_eq(&entries[i].0, n) {
            return Some(i);
        }
        i = i + 1;
    }
    None
}

impl File {
    /// The head revision number, if the file has one.
    pub fn head(&self) -> (r: &Option<Num>)
        ensures
            *r == self.admin.head,
    {
        &self.admin.head
    }

    /// The head revision and its delta.
    pub fn head_delta(&self) -> (r: Option<(&Num, &Delta)>)
        ensures
            match self.admin.head {
                None => r is None,
                Some(h) => match r {
                    None => forall|j: int|
                        0 <= j < self.delta@.len() ==> !same_num(#[trigger] self.delta@[j].0, h),
                    Some((n, d)) => *n == h && exists|j: int|
                        0 <= j < self.delta@.len() && same_num(#[trigger] self.delta@[j].0, h)
                            && self.delta@[j].1 == *d,
                },
            },
    {
        match &self.admin.head {
            None => None,
            Some(head) => match find_delta(&self.delta, head) {
                None => None,
                Some(i) => Some((head, &self.delta[i].1)),
            },
        }
    }

    /// The head revision and its delta text.
    pub fn head_delta_text(&self) -> (r: Option<(&Num, &DeltaText)>)
        ensures
            match self.admin.head {
                None => r is None,
                Some(h) => match r {
                    None => forall|j: int|
                        0 <= j < self.delta_text@.len() ==> !same_num(
                            #[trigger] self.delta_text@[j].0,
                            h,
                        ),
                    Some((n, d)) => *n == h && exists|j: int|
                        0 <= j < self.delta_text@.len() && same_num(
                            #[trigger] self.delta_text@[j].0,
                            h,
                        ) && self.delta_text@[j].1 == *d,
                },
            },
    {
        match &self.admin.head {
            None => None,
            Some(head) => match find_delta_text(&self.delta_text, head) {
                None => None,
                Some(i) => Some((head, &self.delta_text[i].1)),
            },
        }
    }

    /// The delta and delta text of a revision, where the file has both.
    pub fn revision(&self, revision: &Num) -> (r: Option<(&Delta, &DeltaText)>)
        ensures
            match r {
                Some((d, t)) => (exists|j: int|
                    0 <= j < self.delta@.len() && same_num(#[trigger] self.delta@[j].0, *revision)
                        && self.delta@[j].1 == *d) && (exists|j: int|
                    0 <= j < self.delta_text@.len() && same_num(
                        #[trigger] self.delta_text@[j].0,
                        *revision,
                    ) && self.delta_text@[j].1 == *t),
                None => (forall|j: int|
                    0 <= j < self.delta@.len() ==> !same_num(#[trigger] self.delta@[j].0, *revision))
                    || (forall|j: int|
                    0 <= j < self.delta_text@.len() ==> !same_num(
                        #[trigger] self.delta_text@[j].0,
                        *revision,
                    )),
            },
    {
        match find_delta(&self.delta, revision) {
            None => None,
            Some(i) => match find_delta_text(&self.delta_text, revision) {
                None => None,
                Some(j) => Some((&self.delta[i].1, &self.delta_text[j].1)),
            },
        }
    }
}

// ---------------------------------------------------------------------------
// Scalars.

/// The first index at or after `pos` whose byte is not of the class.
pub open spec fn class_end(s: Seq<u8>, pos: int, class: spec_fn(u8) -> bool) -> int
    decreases s.len() - pos,
{
    if pos < 0 || pos >= s.len() || !class(s[pos]) {
        pos
    } else {
        class_end(s, pos + 1, class)
    }
}

pub open spec fn id_or_dot(c: u8) -> bool {
    idchar(c) || c == 46u8
}

pub open spec fn numlike(c: u8) -> bool {
    is_digit(c) || c == 46u8
}

/// Which class a scan reads.
#[derive(Clone, Copy)]
pub enum Class {
    Id,
    IdOrDot,
    Int,
    NumLike,
}

pub open spec fn class_fn(c: Class) -> spec_fn(u8) -> bool {
    match c {
        Class::Id => |b: u8| idchar(b),
        Class::IdOrDot => |b: u8| id_or_dot(b),
        Class::Int => |b: u8| intchar(b),
        Class::NumLike => |b: u8| numlike(b),
    }
}

fn in_class(c: Class, b: u8) -> (r: bool)
    ensures
        r == (class_fn(c))(b),
{
    match c {
        Class::Id => is_idchar(b),
        Class::IdOrDot => is_idchar(b) || b == 46u8,
        Class::Int => is_intchar(b),
        Class::NumLike => (48 <= b && b <= 57) || b == 46u8,
    }
}

/// The end of the run of bytes of the class from `pos`.
fn scan_class(s: &[u8], pos: usize, c: Class) -> (r: usize)
    requires
        pos <= s@.len(),
    ensures
        r as int == class_end(s@, pos as int, class_fn(c)),
        pos <= r <= s@.len(),
{
    let mut i = pos;
    while i < s.len() && in_class(c, s[i])
        invariant
            pos <= i <= s@.len(),
            class_end(s@, pos as int, class_fn(c)) == class_end(s@, i as int, class_fn(c)),
        decreases s@.len() - i,
    {
        i = i + 1;
    }
    i
}

/// Skips whitespace.
fn skip_ws(s: &[u8], pos: usize) -> (r: usize)
    requires
        pos <= s@.len(),
    ensures
        r as int == space_end(s@, pos as int),
        pos <= r <= s@.len(),
{
    let mut i = pos;
    while i < s.len() && (s[i] == 32u8 || s[i] == 9u8 || s[i] == 13u8 || s[i] == 10u8)
        invariant
            pos <= i <= s@.len(),
            space_end(s@, pos as int) == space_end(s@, i as int),
        decreases s@.len() - i,
    {
        i = i + 1;
    }
    i
}

/// Whether the keyword starts at `pos`.
fn keyword(s: &[u8], pos: usize, kw: &str) -> (r: bool)
    requires
        pos <= s@.len(),
    ensures
        r == starts_with(s@.subrange(pos as int, s@.len() as int), kw.spec_bytes()),
        r ==> pos + kw.spec_bytes().len() <= s@.len(),
{
    let rest = slice_copy(s, pos, s.len());
    has_prefix(rest.as_slice(), kw.as_bytes())
}

/// The content of an `@`-quoted string whose opening `@` is before `pos`,
/// with `@@` read as `@`, and the index after the closing `@`.
pub open spec fn scan_string(s: Seq<u8>, pos: int) -> Option<(Seq<u8>, int)>
    decreases s.len() - pos,
{
    if pos < 0 || pos >= s.len() {
        None
    } else if s[pos] == 64u8 {
        if pos + 1 < s.len() && s[pos + 1] == 64u8 {
            match scan_string(s, pos + 2) {
                None => None,
                Some((c, e)) => Some((seq![64u8] + c, e)),
            }
        } else {
            Some((Seq::empty(), pos + 1))
        }
    } else {
        match scan_string(s, pos + 1) {
            None => None,
            Some((c, e)) => Some((seq![s[pos]] + c, e)),
        }
    }
}

/// An `@`-quoted string at `pos`.
pub open spec fn string_spec(s: Seq<u8>, pos: int) -> Option<(Seq<u8>, int)> {
    if 0 <= pos < s.len() && s[pos] == 64u8 {
        scan_string(s, pos + 1)
    } else {
        None
    }
}

/// Reads an `@`-quoted string.
pub fn string(s: &[u8], pos: usize) -> (r: Option<(Vec<u8>, usize)>)
    requires
        pos <= s@.len(),
    ensures
        match string_spec(s@, pos as int) {
            None => r is None,
            Some((c, e)) => r matches Some((v, e2)) && v@ == c && e2 == e,
        },
        r matches Some((_, e)) ==> pos < e <= s@.len(),
{
    proof {
        lemma_scan_string_bounds(s@, pos + 1);
    }
    if pos >= s.len() || s[pos] != 64u8 {
        return None;
    }
    let mut out: Vec<u8> = Vec::new();
    let mut i = pos + 1;
    while i < s.len()
        invariant
            pos < i <= s@.len(),
            string_spec(s@, pos as int) == match scan_string(s@, i as int) {
                None => None,
                Some((c, e)) => Some((out@ + c, e)),
            },
        decreases s@.len() - i,
    {
        if s[i] == 64u8 {
            if i + 1 < s.len() && s[i + 1] == 64u8 {
                let ghost o = out@;
                out.push(64u8);
                proof {
                    if let Some((c, e)) = scan_string(s@, i + 2) {
                        assert(o + (seq![64u8] + c) =~= out@ + c);
                    }
                }
                i = i + 2;
            } else {
                assert(out@ + Seq::<u8>::empty() =~= out@);
                return Some((out, i + 1));
            }
        } else {
            let ghost o = out@;
            out.push(s[i]);
            proof {
                if let Some((c, e)) = scan_string(s@, i + 1) {
                    assert(o + (seq![s@[i as int]] + c) =~= out@ + c);
                }
            }
            i = i + 1;
        }
    }
    None
}

/// `@intchars@` at `pos`.
pub open spec fn integrity_spec(s: Seq<u8>, pos: int) -> Option<(Seq<u8>, int)> {
    let e = class_end(s, pos + 1, class_fn(Class::Int));
    if 0 <= pos < s.len() && s[pos] == 64u8 && e < s.len() && s[e] == 64u8 {
        Some((s.subrange(pos + 1, e), e + 1))
    } else {
        None
    }
}

/// Reads an integrity string: `@`, intchars, `@`, without escapes.
pub fn integrity_string(s: &[u8], pos: usize) -> (r: Option<(Vec<u8>, usize)>)
    requires
        pos <= s@.len(),
    ensures
        match integrity_spec(s@, pos as int) {
            None => r is None,
            Some((c, e)) => r matches Some((v, e2)) && v@ == c && e2 == e,
        },
        r matches Some((_, e)) ==> pos < e <= s@.len(),
{
    if pos >= s.len() || s[pos] != 64u8 {
        return None;
    }
    let e = scan_class(s, pos + 1, Class::Int);
    if e >= s.len() || s[e] != 64u8 {
        return None;
    }
    Some((slice_copy(s, pos + 1, e), e + 1))
}

/// Reads an id: idchars and dots, possibly none.
pub fn id(s: &[u8], pos: usize) -> (r: (Vec<u8>, usize))
    requires
        pos <= s@.len(),
    ensures
        r.1 as int == class_end(s@, pos as int, class_fn(Class::IdOrDot)),
        r.0@ == s@.subrange(pos as int, r.1 as int),
        pos <= r.1 <= s@.len(),
{
    let e = scan_class(s, pos, Class::IdOrDot);
    (slice_copy(s, pos, e), e)
}

/// Reads a symbol: idchars, possibly none.
pub fn sym(s: &[u8], pos: usize) -> (r: (Vec<u8>, usize))
    requires
        pos <= s@.len(),
    ensures
        r.1 as int == class_end(s@, pos as int, class_fn(Class::Id)),
        r.0@ == s@.subrange(pos as int, r.1 as int),
        pos <= r.1 <= s@.len(),
{
    let e = scan_class(s, pos, Class::Id);
    (slice_copy(s, pos, e), e)
}

/// Reads a revision number: a non-empty run of digits and dots that parses
/// as one.
pub fn num(s: &[u8], pos: usize) -> (r: Result<(Num, usize), ParseError>)
    requires
        pos <= s@.len(),
    ensures
        ({
            let e = class_end(s@, pos as int, class_fn(Class::NumLike));
            if e == pos {
                r == Err::<(Num, usize), ParseError>(
                    ParseError { location: pos, kind: ParseErrorKind::Syntax },
                )
            } else {
                match parse_spec(s@.subrange(pos as int, e)) {
                    None => r == Err::<(Num, usize), ParseError>(
                        ParseError { location: pos, kind: ParseErrorKind::MalformedRevision },
                    ),
                    Some((b, p)) => r matches Ok((n, e2)) && e2 == e && n.is_branch() == b
                        && n.parts() == p,
                }
            }
        }),
        r matches Ok((_, e)) ==> pos < e <= s@.len(),
{
    let e = scan_class(s, pos, Class::NumLike);
    if e == pos {
        return Err(ParseError { location: pos, kind: ParseErrorKind::Syntax });
    }
    let text = slice_copy(s, pos, e);
    match Num::parse(text.as_slice()) {
        Ok(n) => Ok((n, e)),
        Err(_) => Err(ParseError { location: pos, kind: ParseErrorKind::MalformedRevision }),
    }
}

// ---------------------------------------------------------------------------
// Dates.

pub open spec fn leap_year(y: int) -> bool {
    y % 4 == 0 && (y % 100 != 0 || y % 400 == 0)
}

pub open spec fn days_in_month(y: int, m: int) -> int {
    if m == 2 {
        if leap_year(y) {
            29
        } else {
            28
        }
    } else if m == 4 || m == 6 || m == 9 || m == 11 {
        30
    } else {
        31
    }
}

/// A day of the proleptic Gregorian calendar, within chrono's years.
pub open spec fn date_valid(y: i32, m: u32, d: u32) -> bool {
    -262143 <= y <= 262142 && 1 <= m <= 12 && 1 <= d <= days_in_month(y as int, m as int)
}

/// A time of day; milliseconds from 1000 on stand for a leap second, and
/// only after second 59.
pub open spec fn time_valid(h: u32, mi: u32, s: u32, ms: u32) -> bool {
    h < 24 && mi < 60 && s < 60 && (ms < 1000 || (s == 59 && ms < 2000))
}

/// Relies on chrono::NaiveDate::from_ymd_opt, which gives a date exactly
/// when the year lies in chrono's range and the month and day exist.
#[verifier::external_body]
fn ymd_exists(year: i32, month: u32, day: u32) -> (r: bool)
    ensures
        r == date_valid(year, month, day),
{
    chrono::NaiveDate::from_ymd_opt(year, month, day).is_some()
}

/// Relies on chrono::NaiveTime::from_hms_milli_opt, which gives a time
/// exactly when hour, minute and second are in range and the milliseconds
/// are under 1000, or under 2000 at second 59.
#[verifier::external_body]
fn hms_milli_exists(hour: u32, minute: u32, second: u32, milli: u32) -> (r: bool)
    ensures
        r == time_valid(hour, minute, second, milli),
{
    chrono::NaiveTime::from_hms_milli_opt(hour, minute, second, milli).is_some()
}

/// A run of digits at `pos` and its value, where one starts there.
pub open spec fn digits_at(s: Seq<u8>, pos: int) -> Option<(nat, int)> {
    let e = digit_end(s, pos);
    if 0 <= pos && e > pos {
        Some((digits_value(s.subrange(pos, e)), e))
    } else {
        None
    }
}

/// The six dot-separated numbers of a date at `pos`, and where they end.
pub open spec fn date_fields(s: Seq<u8>, pos: int) -> Option<(Seq<nat>, int)>
    decreases 6nat,
{
    date_fields_from(s, pos, 6)
}

pub open spec fn date_fields_from(s: Seq<u8>, pos: int, k: nat) -> Option<(Seq<nat>, int)>
    decreases k,
{
    if k == 0 {
        Some((Seq::empty(), pos))
    } else {
        match digits_at(s, pos) {
            None => None,
            Some((v, e)) => if k == 1 {
                Some((seq![v], e))
            } else if e < s.len() && s[e] == 46u8 {
                match date_fields_from(s, e + 1, (k - 1) as nat) {
                    None => None,
                    Some((rest, e2)) => Some((seq![v] + rest, e2)),
                }
            } else {
                None
            },
        }
    }
}

/// What a date at `pos` reads as.
pub open spec fn date_spec(s: Seq<u8>, pos: int) -> Result<(RcsDate, int), ParseErrorKind> {
    match date_fields(s, pos) {
        None => Err(ParseErrorKind::Syntax),
        Some((f, e)) => if f[0] > i32::MAX || f[1] > u32::MAX || f[2] > u32::MAX || f[3] > u32::MAX
            || f[4] > u32::MAX || f[5] > u32::MAX {
            Err(ParseErrorKind::Syntax)
        } else {
            let year = if f[0] < 100 {
                f[0] + 1900
            } else {
                f[0]
            };
            let second = if f[5] >= 60 {
                59
            } else {
                f[5]
            };
            let millis = if f[5] >= 60 {
                (f[5] - 59) * 1000
            } else {
                0
            };
            if !date_valid(year as i32, f[1] as u32, f[2] as u32) {
                Err(ParseErrorKind::InvalidDate)
            } else if millis > u32::MAX || !time_valid(
                f[3] as u32,
                f[4] as u32,
                second as u32,
                millis as u32,
            ) {
                Err(ParseErrorKind::InvalidTime)
            } else {
                Ok(
                    (
                        RcsDate {
                            year: year as i32,
                            month: f[1] as u32,
                            day: f[2] as u32,
                            hour: f[3] as u32,
                            minute: f[4] as u32,
                            second: second as u32,
                            millis: millis as u32,
                        },
                        e,
                    ),
                )
            }
        },
    }
}

/// Reads the digits at `pos` and their value, where it fits in a `u64`.
fn digits(s: &[u8], pos: usize) -> (r: Option<(u64, usize)>)
    requires
        pos <= s@.len(),
    ensures
        match digits_at(s@, pos as int) {
            None => r is None,
            Some((v, e)) => if v <= u64::MAX {
                r is Some
            } else {
                r is None
            },
        },
        r matches Some((v, e)) ==> digits_at(s@, pos as int) == Some((v as nat, e as int)) && pos
            < e <= s@.len(),
{
    let e = find_digit_end(s, pos);
    if e == pos {
        return None;
    }
    let ghost sub = s@.subrange(pos as int, e as int);
    assert forall|i: int| 0 <= i < sub.len() implies is_digit(#[trigger] sub[i]) by {
        assert(sub[i] == s@[pos + i]);
    }
    match read_component(s, pos, e) {
        Some(v) => Some((v, e)),
        None => None,
    }
}

/// Reads a date `year.month.day.hour.minute.second`.
pub fn date(s: &[u8], pos: usize) -> (r: Result<(RcsDate, usize), ParseError>)
    requires
        pos <= s@.len(),
    ensures
        match date_spec(s@, pos as int) {
            Ok((d, e)) => r == Ok::<(RcsDate, usize), ParseError>((d, e as usize)),
            Err(k) => r == Err::<(RcsDate, usize), ParseError>(ParseError { location: pos, kind: k }),
        },
        r matches Ok((_, e)) ==> pos < e <= s@.len(),
        date_spec(s@, pos as int) matches Ok((_, e)) ==> pos < e <= s@.len(),
{
    proof {
        lemma_date_end(s@, pos as int);
    }
    let syntax = ParseError { location: pos, kind: ParseErrorKind::Syntax };
    let mut f: Vec<u64> = Vec::new();
    let mut p = pos;
    let mut k: usize = 0;
    let ghost mut fs: Seq<nat> = Seq::empty();
    while k < 6
        invariant
            k <= 6,
            p <= s@.len(),
            f@.len() == k,
            fs.len() == k,
            forall|j: int| 0 <= j < k ==> f@[j] == fs[j],
            k == 0 ==> p == pos,
            date_fields(s@, pos as int) == match date_fields_from(s@, p as int, (6 - k) as nat) {
                None => None,
                Some((rest, e)) => Some((fs + rest, e)),
            },
        decreases 6 - k,
    {
        let (v, e) = match digits(s, p) {
            Some(x) => x,
            None => {
                proof {
                    if let Some((v, e)) = digits_at(s@, p as int) {
                        // Too large for any field.
                        assert(v > u64::MAX);
                        match date_fields_from(s@, p as int, (6 - k) as nat) {
                            None => {},
                            Some((rest, e2)) => {
                                assert(rest[0] == v);
                                let f2 = fs + rest;
                                assert(f2[k as int] == v);
                                if k == 0 {
                                    assert(f2[0] > i32::MAX);
                                } else if k == 1 {
                                    assert(f2[1] > u32::MAX);
                                } else if k == 2 {
                                    assert(f2[2] > u32::MAX);
                                } else if k == 3 {
                                    assert(f2[3] > u32::MAX);
                                } else if k == 4 {
                                    assert(f2[4] > u32::MAX);
                                } else {
                                    assert(f2[5] > u32::MAX);
                                }
                            },
                        }
                    } else {
                        assert(date_fields_from(s@, p as int, (6 - k) as nat) is None);
                    }
                    assert(date_spec(s@, pos as int) == Err::<(RcsDate, int), ParseErrorKind>(
                        ParseErrorKind::Syntax,
                    ));
                }
                return Err(ParseError { location: pos, kind: ParseErrorKind::Syntax });
            },
        };
        assert(digits_at(s@, p as int) == Some((v as nat, e as int)));
        f.push(v);
        proof {
            fs = fs.push(v as nat);
        }
        if k == 5 {
            proof {
                assert(date_fields_from(s@, p as int, 1) == Some((seq![v as nat], e as int)));
                assert(fs.drop_last() + seq![v as nat] =~= fs);
            }
            p = e;
            k = k + 1;
        } else {
            if e >= s.len() || s[e] != 46u8 {
                assert(date_fields_from(s@, p as int, (6 - k) as nat) is None);
                return Err(ParseError { location: pos, kind: ParseErrorKind::Syntax });
            }
            proof {
                match date_fields_from(s@, e + 1, (6 - k - 1) as nat) {
                    None => {},
                    Some((rest, e2)) => {
                        assert(fs.drop_last() + (seq![v as nat] + rest) =~= fs + rest);
                    },
                }
            }
            p = e + 1;
            k = k + 1;
        }
    }
    proof {
        assert(fs + Seq::<nat>::empty() =~= fs);
    }
    if f[0] > 0x7fff_ffff || f[1] > 0xffff_ffff || f[2] > 0xffff_ffff || f[3] > 0xffff_ffff
        || f[4] > 0xffff_ffff || f[5] > 0xffff_ffff {
        return Err(syntax);
    }
    let year: i32 = if f[0] < 100 {
        (f[0] + 1900) as i32
    } else {
        f[0] as i32
    };
    let raw_second = f[5] as u32;
    let second: u32 = if raw_second >= 60 {
        59
    } else {
        raw_second
    };
    let month = f[1] as u32;
    let day = f[2] as u32;
    let hour = f[3] as u32;
    let minute = f[4] as u32;
    if !ymd_exists(year, month, day) {
        return Err(ParseError { location: pos, kind: ParseErrorKind::InvalidDate });
    }
    if raw_second >= 60 && raw_second - 59 > 4294967 {
        return Err(ParseError { location: pos, kind: ParseErrorKind::InvalidTime });
    }
    let millis: u32 = if raw_second >= 60 {
        (raw_second - 59) * 1000
    } else {
        0
    };
    if !hms_milli_exists(hour, minute, second, millis) {
        return Err(ParseError { location: pos, kind: ParseErrorKind::InvalidTime });
    }
    Ok((RcsDate { year, month, day, hour, minute, second, millis }, p))
}

// ---------------------------------------------------------------------------
// Records.

/// What `num` reads at `pos`: whether it is a branch and its components,
/// and where it ends.
pub open spec fn num_spec(s: Seq<u8>, pos: int) -> Result<((bool, Seq<u64>), int), ParseErrorKind> {
    let e = class_end(s, pos, class_fn(Class::NumLike));
    if e == pos {
        Err(ParseErrorKind::Syntax)
    } else {
        match parse_spec(s.subrange(pos, e)) {
            None => Err(ParseErrorKind::MalformedRevision),
            Some(n) => Ok((n, e)),
        }
    }
}

/// `desc`, whitespace, and a string.
pub open spec fn desc_spec(s: Seq<u8>, pos: int) -> Option<(Seq<u8>, int)> {
    let k = "desc".spec_bytes().len();
    let w = space_end(s, pos + k);
    if 0 <= pos <= s.len() && starts_with(s.subrange(pos, s.len() as int), "desc".spec_bytes()) && w
        > pos + k {
        string_spec(s, w)
    } else {
        None
    }
}

/// Reads the description: `desc`, whitespace, and a string.
pub fn desc(s: &[u8], pos: usize) -> (r: Result<(Vec<u8>, usize), ParseError>)
    requires
        pos <= s@.len(),
    ensures
        match desc_spec(s@, pos as int) {
            Some((d, e)) => r matches Ok((v, e2)) && v@ == d && e2 == e,
            None => r is Err,
        },
{
    if !keyword(s, pos, "desc") {
        return Err(ParseError { location: pos, kind: ParseErrorKind::Syntax });
    }
    let k = "desc".as_bytes().len();
    let n = s.len();
    assert(pos + k <= n);
    let w = skip_ws(s, pos + k);
    if w == pos + k {
        return Err(ParseError { location: w, kind: ParseErrorKind::Syntax });
    }
    match string(s, w) {
        Some(x) => Ok(x),
        None => Err(ParseError { location: w, kind: ParseErrorKind::Syntax }),
    }
}

/// Expects `kw` at `pos` followed by whitespace, and returns where what
/// follows starts.
fn keyword_ws1(s: &[u8], pos: usize, kw: &str) -> (r: Result<usize, ParseError>)
    requires
        pos <= s@.len(),
    ensures
        r matches Ok(e) ==> pos < e <= s@.len(),
        match r {
            Ok(e) => kw_ws1_spec(s@, pos as int, kw.spec_bytes()) == Ok::<int, ParseError>(e as int),
            Err(x) => kw_ws1_spec(s@, pos as int, kw.spec_bytes()) == Err::<int, ParseError>(x),
        },
{
    if !keyword(s, pos, kw) {
        return Err(ParseError { location: pos, kind: ParseErrorKind::Syntax });
    }
    let k = kw.as_bytes().len();
    let n = s.len();
    assert(pos + k <= n);
    let w = skip_ws(s, pos + k);
    if w == pos + k {
        return Err(ParseError { location: w, kind: ParseErrorKind::Syntax });
    }
    Ok(w)
}

/// The index after the keyword `kw`, which starts at `pos`.
fn skip_keyword(s: &[u8], pos: usize, kw: &str) -> (r: usize)
    requires
        pos + kw.spec_bytes().len() <= s@.len(),
    ensures
        r == pos + kw.spec_bytes().len(),
{
    let k = kw.as_bytes().len();
    let n = s.len();
    assert(pos + k <= n);
    pos + k
}

/// Expects optional whitespace, `;` and optional whitespace.
fn semicolon(s: &[u8], pos: usize) -> (r: Result<usize, ParseError>)
    requires
        pos <= s@.len(),
    ensures
        r matches Ok(e) ==> pos < e <= s@.len(),
        match r {
            Ok(e) => semicolon_spec(s@, pos as int) == Ok::<int, ParseError>(e as int),
            Err(x) => semicolon_spec(s@, pos as int) == Err::<int, ParseError>(x),
        },
{
    let p = skip_ws(s, pos);
    if p >= s.len() || s[p] != 59u8 {
        return Err(ParseError { location: p, kind: ParseErrorKind::Syntax });
    }
    Ok(skip_ws(s, p + 1))
}

/// Reads an optional number: `None` where no number starts at `pos`.
fn opt_num(s: &[u8], pos: usize) -> (r: Result<(Option<Num>, usize), ParseError>)
    requires
        pos <= s@.len(),
    ensures
        r matches Ok((_, e)) ==> pos <= e <= s@.len(),
        r matches Ok((Some(n), _)) ==> num_read_at(s@, n),
        match opt_num_spec(s@, pos as int) {
            Ok((n, e)) => r matches Ok((m, e2)) && e2 == e && opt_rev_view(m) == n,
            Err(x) => r == Err::<(Option<Num>, usize), ParseError>(x),
        },
{
    match num(s, pos) {
        Ok((n, e)) => {
            assert(num_spec(s@, pos as int) matches Ok((m, _)) && n.is_branch() == m.0 && n.parts()
                == m.1);
            Ok((Some(n), e))
        },
        Err(e) => if matches!(e.kind, ParseErrorKind::Syntax) {
            Ok((None, pos))
        } else {
            Err(e)
        },
    }
}

/// `name : num` pairs up to the closing `;`, the names read as the class.
pub open spec fn pairs_spec(s: Seq<u8>, p: int, c: Class) -> Result<(Seq<(Seq<u8>, (bool, Seq<u64>))>, int), ParseError>
    decreases s.len() - p,
{
    let q = space_end(s, p);
    if p < 0 || p > s.len() || q < p || q > s.len() {
        Err(syntax_at(p))
    } else if q < s.len() && s[q] == 59u8 {
        match semicolon_spec(s, q) {
            Ok(e) => Ok((Seq::empty(), e)),
            Err(x) => Err(x),
        }
    } else {
        let e = class_end(s, q, class_fn(c));
        let k = space_end(s, e);
        if k >= s.len() || s[k] != 58u8 {
            Err(syntax_at(k))
        } else {
            let v = space_end(s, k + 1);
            match num_spec(s, v) {
                Err(kind) => Err(ParseError { location: v as usize, kind }),
                Ok((n, e2)) => if e2 <= p || e2 > s.len() {
                    Err(syntax_at(p))
                } else {
                    match pairs_spec(s, e2, c) {
                        Err(x) => Err(x),
                        Ok((rest, e3)) => Ok((seq![(s.subrange(q, e), n)] + rest, e3)),
                    }
                },
            }
        }
    }
}

pub open spec fn pairs_view(v: Seq<(Vec<u8>, Num)>) -> Seq<(Seq<u8>, (bool, Seq<u64>))> {
    v.map_values(|e: (Vec<u8>, Num)| (e.0@, rev_view(e.1)))
}

/// Reads `name : num` pairs up to the closing `;`.
fn pairs(s: &[u8], pos: usize, c: Class) -> (r: Result<(Vec<(Vec<u8>, Num)>, usize), ParseError>)
    requires
        pos <= s@.len(),
    ensures
        r matches Ok((_, e)) ==> pos < e <= s@.len(),
        match pairs_spec(s@, pos as int, c) {
            Ok((v, e)) => r matches Ok((m, e2)) && e2 == e && pairs_view(m@) == v,
            Err(x) => r == Err::<(Vec<(Vec<u8>, Num)>, usize), ParseError>(x),
        },
{
    let mut out: Vec<(Vec<u8>, Num)> = Vec::new();
    let mut p = pos;
    loop
        invariant
            pos <= p <= s@.len(),
            pairs_spec(s@, pos as int, c) == match pairs_spec(s@, p as int, c) {
                Ok((v, e)) => Ok((pairs_view(out@) + v, e)),
                Err(x) => Err::<(Seq<(Seq<u8>, (bool, Seq<u64>))>, int), ParseError>(x),
            },
        decreases s@.len() - p,
    {
        let q = skip_ws(s, p);
        if q < s.len() && s[q] == 59u8 {
            assert(pairs_view(out@) + Seq::empty() =~= pairs_view(out@));
            return match semicolon(s, q) {
                Ok(e) => Ok((out, e)),
                Err(err) => Err(err),
            };
        }
        let e = scan_class(s, q, c);
        let name = slice_copy(s, q, e);
        let k = skip_ws(s, e);
        if k >= s.len() || s[k] != 58u8 {
            return Err(ParseError { location: k, kind: ParseErrorKind::Syntax });
        }
        let v = skip_ws(s, k + 1);
        let (n, e2) = match num(s, v) {
            Ok(x) => x,
            Err(err) => {
                return Err(err);
            },
        };
        let ghost o = out@;
        let ghost entry = (name@, rev_view(n));
        out.push((name, n));
        proof {
            assert(pairs_view(out@) =~= pairs_view(o).push(entry));
            if let Ok((v2, e3)) = pairs_spec(s@, e2 as int, c) {
                assert(pairs_view(o) + (seq![entry] + v2) =~= pairs_view(out@) + v2);
            }
        }
        p = e2;
    }
}

/// Ids separated by whitespace up to the closing `;`.
pub open spec fn access_spec(s: Seq<u8>, p: int) -> Result<(Seq<Seq<u8>>, int), ParseError>
    decreases s.len() - p,
{
    let q = space_end(s, p);
    if p < 0 || p > s.len() || q < p || q > s.len() {
        Err(syntax_at(p))
    } else if q < s.len() && s[q] == 59u8 {
        match semicolon_spec(s, q) {
            Ok(e) => Ok((Seq::empty(), e)),
            Err(x) => Err(x),
        }
    } else if q == p {
        Err(syntax_at(q))
    } else {
        let e = class_end(s, q, class_fn(Class::IdOrDot));
        if e <= q || e > s.len() {
            Err(syntax_at(q))
        } else {
            match access_spec(s, e) {
                Err(x) => Err(x),
                Ok((rest, e2)) => Ok((seq![s.subrange(q, e)] + rest, e2)),
            }
        }
    }
}

/// Reads ids separated by whitespace up to the closing `;`.
fn access_list(s: &[u8], pos: usize) -> (r: Result<(Vec<Vec<u8>>, usize), ParseError>)
    requires
        pos <= s@.len(),
    ensures
        r matches Ok((_, e)) ==> pos < e <= s@.len(),
        match access_spec(s@, pos as int) {
            Ok((v, e)) => r matches Ok((m, e2)) && e2 == e && crate::ed::lines_view(m@) == v,
            Err(x) => r == Err::<(Vec<Vec<u8>>, usize), ParseError>(x),
        },
{
    let mut out: Vec<Vec<u8>> = Vec::new();
    let mut p = pos;
    loop
        invariant
            pos <= p <= s@.len(),
            access_spec(s@, pos as int) == match access_spec(s@, p as int) {
                Ok((v, e)) => Ok((crate::ed::lines_view(out@) + v, e)),
                Err(x) => Err::<(Seq<Seq<u8>>, int), ParseError>(x),
            },
        decreases s@.len() - p,
    {
        let q = skip_ws(s, p);
        if q < s.len() && s[q] == 59u8 {
            assert(crate::ed::lines_view(out@) + Seq::empty() =~= crate::ed::lines_view(out@));
            return match semicolon(s, q) {
                Ok(e) => Ok((out, e)),
                Err(err) => Err(err),
            };
        }
        if q == p {
            return Err(ParseError { location: q, kind: ParseErrorKind::Syntax });
        }
        let (v, e) = id(s, q);
        if e == q {
            return Err(ParseError { location: q, kind: ParseErrorKind::Syntax });
        }
        let ghost o = out@;
        let ghost vv = v@;
        out.push(v);
        proof {
            assert(crate::ed::lines_view(out@) =~= crate::ed::lines_view(o).push(vv));
            if let Ok((v2, e3)) = access_spec(s@, e as int) {
                assert(crate::ed::lines_view(o) + (seq![vv] + v2) =~= crate::ed::lines_view(out@) + v2);
            }
        }
        p = e;
    }
}

/// Reads revision numbers, each after whitespace, up to the closing `;`.
fn num_list(s: &[u8], pos: usize) -> (r: Result<(Vec<Num>, usize), ParseError>)
    requires
        pos <= s@.len(),
    ensures
        r matches Ok((_, e)) ==> pos < e <= s@.len(),
        match num_list_spec(s@, pos as int) {
            Ok((v, e)) => r matches Ok((m, e2)) && e2 == e && revs_view(m@) == v,
            Err(x) => r == Err::<(Vec<Num>, usize), ParseError>(x),
        },
{
    let mut out: Vec<Num> = Vec::new();
    let mut p = pos;
    loop
        invariant
            pos <= p <= s@.len(),
            num_list_spec(s@, pos as int) == match num_list_spec(s@, p as int) {
                Ok((v, e)) => Ok((revs_view(out@) + v, e)),
                Err(x) => Err::<(Seq<(bool, Seq<u64>)>, int), ParseError>(x),
            },
        decreases s@.len() - p,
    {
        let q = skip_ws(s, p);
        if q < s.len() && s[q] == 59u8 {
            assert(revs_view(out@) + Seq::empty() =~= revs_view(out@));
            return match semicolon(s, q) {
                Ok(e) => Ok((out, e)),
                Err(err) => Err(err),
            };
        }
        if q == p {
            return Err(ParseError { location: q, kind: ParseErrorKind::Syntax });
        }
        let (n, e) = match num(s, q) {
            Ok(x) => x,
            Err(err) => {
                return Err(err);
            },
        };
        let ghost o = out@;
        out.push(n);
        proof {
            assert(revs_view(out@) =~= revs_view(o).push(rev_view(n)));
            if let Ok((v, e2)) = num_list_spec(s@, e as int) {
                assert(revs_view(o) + (seq![rev_view(n)] + v) =~= revs_view(out@) + v);
            }
        }
        p = e;
    }
}

pub open spec fn rev_view(n: Num) -> (bool, Seq<u64>) {
    (n.is_branch(), n.parts())
}

pub open spec fn revs_view(v: Seq<Num>) -> Seq<(bool, Seq<u64>)> {
    v.map_values(|n: Num| rev_view(n))
}

pub open spec fn opt_rev_view(n: Option<Num>) -> Option<(bool, Seq<u64>)> {
    match n {
        Some(x) => Some(rev_view(x)),
        None => None,
    }
}

pub open spec fn syntax_at(p: int) -> ParseError {
    ParseError { location: p as usize, kind: ParseErrorKind::Syntax }
}

/// A keyword and at least one whitespace byte at `p`: where what follows
/// starts.
pub open spec fn kw_ws1_spec(s: Seq<u8>, p: int, kw: Seq<u8>) -> Result<int, ParseError> {
    let w = space_end(s, p + kw.len());
    if !starts_with(s.subrange(p, s.len() as int), kw) {
        Err(syntax_at(p))
    } else if w == p + kw.len() {
        Err(syntax_at(w))
    } else {
        Ok(w)
    }
}

/// Optional whitespace, `;` and optional whitespace at `p`.
pub open spec fn semicolon_spec(s: Seq<u8>, p: int) -> Result<int, ParseError> {
    let q = space_end(s, p);
    if q < s.len() && s[q] == 59u8 {
        Ok(space_end(s, q + 1))
    } else {
        Err(syntax_at(q))
    }
}

/// A revision number at `p`, or none where no number starts there.
pub open spec fn opt_num_spec(s: Seq<u8>, p: int) -> Result<(Option<(bool, Seq<u64>)>, int), ParseError> {
    match num_spec(s, p) {
        Ok((n, e)) => Ok((Some(n), e)),
        Err(k) => if k == ParseErrorKind::Syntax {
            Ok((None, p))
        } else {
            Err(ParseError { location: p as usize, kind: k })
        },
    }
}

/// Revision numbers, each after whitespace, up to the closing `;`.
pub open spec fn num_list_spec(s: Seq<u8>, p: int) -> Result<(Seq<(bool, Seq<u64>)>, int), ParseError>
    decreases s.len() - p,
{
    let q = space_end(s, p);
    if p < 0 || p > s.len() || q < p {
        Err(syntax_at(p))
    } else if q < s.len() && s[q] == 59u8 {
        match semicolon_spec(s, q) {
            Ok(e) => Ok((Seq::empty(), e)),
            Err(x) => Err(x),
        }
    } else if q == p {
        Err(syntax_at(q))
    } else {
        match num_spec(s, q) {
            Err(k) => Err(ParseError { location: q as usize, kind: k }),
            Ok((n, e)) => if e <= p || e > s.len() {
                Err(syntax_at(p))
            } else {
                match num_list_spec(s, e) {
                    Err(x) => Err(x),
                    Ok((rest, e2)) => Ok((seq![n] + rest, e2)),
                }
            },
        }
    }
}

proof fn lemma_scan_string_bounds(s: Seq<u8>, pos: int)
    ensures
        scan_string(s, pos) matches Some((_, e)) ==> pos < e <= s.len(),
    decreases s.len() - pos,
{
    if 0 <= pos < s.len() {
        if s[pos] == 64u8 && pos + 1 < s.len() && s[pos + 1] == 64u8 {
            lemma_scan_string_bounds(s, pos + 2);
        } else if s[pos] != 64u8 {
            lemma_scan_string_bounds(s, pos + 1);
        }
    }
}

/// The fields of an admin block read so far.
pub struct AdminAcc {
    pub head: Option<Option<(bool, Seq<u64>)>>,
    pub branch: Option<Option<(bool, Seq<u64>)>>,
    pub access: Option<Seq<Seq<u8>>>,
    pub symbols: Option<Seq<(Seq<u8>, (bool, Seq<u64>))>>,
    pub locks: Option<Seq<(Seq<u8>, (bool, Seq<u64>))>>,
    pub strict: bool,
    pub integrity: Option<Seq<u8>>,
    pub comment: Option<Seq<u8>>,
    pub expand: Option<Seq<u8>>,
}

/// What an admin block holds.
pub struct AdminView {
    pub head: Option<(bool, Seq<u64>)>,
    pub branch: Option<(bool, Seq<u64>)>,
    pub access: Seq<Seq<u8>>,
    pub symbols: Seq<(Seq<u8>, (bool, Seq<u64>))>,
    pub locks: Seq<(Seq<u8>, (bool, Seq<u64>))>,
    pub strict: bool,
    pub integrity: Option<Seq<u8>>,
    pub comment: Option<Seq<u8>>,
    pub expand: Option<Seq<u8>>,
}

pub open spec fn admin_view(a: Admin) -> AdminView {
    AdminView {
        head: opt_rev_view(a.head),
        branch: opt_rev_view(a.branch),
        access: crate::ed::lines_view(a.access@),
        symbols: pairs_view(a.symbols@),
        locks: pairs_view(a.locks@),
        strict: a.strict,
        integrity: opt_bytes_view(a.integrity),
        comment: opt_bytes_view(a.comment),
        expand: opt_bytes_view(a.expand),
    }
}

/// `kw`, whitespace, an optional number and `;`.
pub open spec fn num_field(s: Seq<u8>, p: int, kw: Seq<u8>) -> Result<(Option<(bool, Seq<u64>)>, int), ParseError> {
    match kw_ws1_spec(s, p, kw) {
        Err(x) => Err(x),
        Ok(w) => match opt_num_spec(s, w) {
            Err(x) => Err(x),
            Ok((n, e)) => match semicolon_spec(s, e) {
                Err(x) => Err(x),
                Ok(p2) => Ok((n, p2)),
            },
        },
    }
}

/// `kw`, whitespace, an `@`-string (an integrity string where `integrity`
/// is set) and `;`.
pub open spec fn text_field(s: Seq<u8>, p: int, kw: Seq<u8>, integrity: bool) -> Result<(Seq<u8>, int), ParseError> {
    match kw_ws1_spec(s, p, kw) {
        Err(x) => Err(x),
        Ok(w) => match (if integrity {
            integrity_spec(s, w)
        } else {
            string_spec(s, w)
        }) {
            None => Err(syntax_at(w)),
            Some((v, e)) => match semicolon_spec(s, e) {
                Err(x) => Err(x),
                Ok(p2) => Ok((v, p2)),
            },
        },
    }
}

/// `strict` and `;`.
pub open spec fn strict_field(s: Seq<u8>, p: int) -> Result<(bool, int), ParseError> {
    match semicolon_spec(s, p + "strict".spec_bytes().len()) {
        Err(x) => Err(x),
        Ok(p2) => Ok((true, p2)),
    }
}

/// The fields of an admin block from `p` on, in any order and each at most
/// once, up to the first byte that starts none of them.
#[verifier::opaque]
pub open spec fn admin_fields(s: Seq<u8>, p: int, acc: AdminAcc) -> Result<(AdminAcc, int), ParseError>
    decreases s.len() - p,
{
    if p < 0 || p > s.len() {
        Err(syntax_at(p))
    } else if acc.head is None && at_keyword(s, p, "head".spec_bytes()) {
        match after_field(s, p, num_field(s, p, "head".spec_bytes())) {
            Err(x) => Err(x),
            Ok((v, p2)) => admin_fields(s, p2, AdminAcc { head: Some(v), ..acc }),
        }
    } else if acc.branch is None && at_keyword(s, p, "branch".spec_bytes()) {
        match after_field(s, p, num_field(s, p, "branch".spec_bytes())) {
            Err(x) => Err(x),
            Ok((v, p2)) => admin_fields(s, p2, AdminAcc { branch: Some(v), ..acc }),
        }
    } else if acc.access is None && at_keyword(s, p, "access".spec_bytes()) {
        match after_field(s, p, access_spec(s, p + "access".spec_bytes().len())) {
            Err(x) => Err(x),
            Ok((v, p2)) => admin_fields(s, p2, AdminAcc { access: Some(v), ..acc }),
        }
    } else if acc.symbols is None && at_keyword(s, p, "symbols".spec_bytes()) {
        match after_field(s, p, pairs_spec(s, p + "symbols".spec_bytes().len(), Class::Id)) {
            Err(x) => Err(x),
            Ok((v, p2)) => admin_fields(s, p2, AdminAcc { symbols: Some(v), ..acc }),
        }
    } else if acc.locks is None && at_keyword(s, p, "locks".spec_bytes()) {
        match after_field(s, p, pairs_spec(s, p + "locks".spec_bytes().len(), Class::IdOrDot)) {
            Err(x) => Err(x),
            Ok((v, p2)) => admin_fields(s, p2, AdminAcc { locks: Some(v), ..acc }),
        }
    } else if !acc.strict && at_keyword(s, p, "strict".spec_bytes()) {
        match after_field(s, p, strict_field(s, p)) {
            Err(x) => Err(x),
            Ok((v, p2)) => admin_fields(s, p2, AdminAcc { strict: v, ..acc }),
        }
    } else if acc.integrity is None && at_keyword(s, p, "integrity".spec_bytes()) {
        match after_field(s, p, text_field(s, p, "integrity".spec_bytes(), true)) {
            Err(x) => Err(x),
            Ok((v, p2)) => admin_fields(s, p2, AdminAcc { integrity: Some(v), ..acc }),
        }
    } else if acc.comment is None && at_keyword(s, p, "comment".spec_bytes()) {
        match after_field(s, p, text_field(s, p, "comment".spec_bytes(), false)) {
            Err(x) => Err(x),
            Ok((v, p2)) => admin_fields(s, p2, AdminAcc { comment: Some(v), ..acc }),
        }
    } else if acc.expand is None && at_keyword(s, p, "expand".spec_bytes()) {
        match after_field(s, p, text_field(s, p, "expand".spec_bytes(), false)) {
            Err(x) => Err(x),
            Ok((v, p2)) => admin_fields(s, p2, AdminAcc { expand: Some(v), ..acc }),
        }
    } else {
        Ok((acc, p))
    }
}

pub open spec fn empty_admin() -> AdminAcc {
    AdminAcc {
        head: None,
        branch: None,
        access: None,
        symbols: None,
        locks: None,
        strict: false,
        integrity: None,
        comment: None,
        expand: None,
    }
}

/// An admin block from its fields; a missing `head`, `access`, `symbols`
/// or `locks` fails where the fields end.
pub open spec fn admin_finish(fields: Result<(AdminAcc, int), ParseError>) -> Result<(AdminView, int), ParseError> {
    match fields {
        Err(x) => Err(x),
        Ok((acc, e)) => if acc.head is Some && acc.access is Some && acc.symbols is Some
            && acc.locks is Some {
            Ok(
                (
                    AdminView {
                        head: acc.head->0,
                        branch: match acc.branch {
                            Some(b) => b,
                            None => None,
                        },
                        access: acc.access->0,
                        symbols: acc.symbols->0,
                        locks: acc.locks->0,
                        strict: acc.strict,
                        integrity: acc.integrity,
                        comment: acc.comment,
                        expand: acc.expand,
                    },
                    e,
                ),
            )
        } else {
            Err(syntax_at(e))
        },
    }
}

/// What an admin block at `pos` reads as, after leading whitespace.
pub open spec fn admin_spec(s: Seq<u8>, pos: int) -> Result<(AdminView, int), ParseError> {
    admin_finish(admin_fields(s, space_end(s, pos), empty_admin()))
}

struct AdminParts {
    head: Option<Option<Num>>,
    branch: Option<Option<Num>>,
    access: Option<Vec<Vec<u8>>>,
    symbols: Option<Vec<(Vec<u8>, Num)>>,
    locks: Option<Vec<(Vec<u8>, Num)>>,
    strict: bool,
    integrity: Option<Vec<u8>>,
    comment: Option<Vec<u8>>,
    expand: Option<Vec<u8>>,
}

spec fn admin_parts_view(a: AdminParts) -> AdminAcc {
    AdminAcc {
        head: match a.head {
            Some(x) => Some(opt_rev_view(x)),
            None => None,
        },
        branch: match a.branch {
            Some(x) => Some(opt_rev_view(x)),
            None => None,
        },
        access: match a.access {
            Some(v) => Some(crate::ed::lines_view(v@)),
            None => None,
        },
        symbols: match a.symbols {
            Some(v) => Some(pairs_view(v@)),
            None => None,
        },
        locks: match a.locks {
            Some(v) => Some(pairs_view(v@)),
            None => None,
        },
        strict: a.strict,
        integrity: opt_bytes_view(a.integrity),
        comment: opt_bytes_view(a.comment),
        expand: opt_bytes_view(a.expand),
    }
}

fn read_num_field(s: &[u8], p: usize, kw: &str) -> (r: Result<(Option<Num>, usize), ParseError>)
    requires
        p <= s@.len(),
    ensures
        match after_field(s@, p as int, num_field(s@, p as int, kw.spec_bytes())) {
            Ok((v, p2)) => r matches Ok((x, p3)) && opt_rev_view(x) == v && p3 == p2 && p < p2 <= s@.len(),
            Err(x) => r == Err::<(Option<Num>, usize), ParseError>(x),
        },
{
    let w = match keyword_ws1(s, p, kw) {
        Ok(w) => w,
        Err(e) => {
            return Err(e);
        },
    };
    let (v, e) = match opt_num(s, w) {
        Ok(x) => x,
        Err(err) => {
            return Err(err);
        },
    };
    match semicolon(s, e) {
        Ok(p2) => Ok((v, p2)),
        Err(err) => Err(err),
    }
}

fn read_text_field(s: &[u8], p: usize, kw: &str, integrity: bool) -> (r: Result<(Vec<u8>, usize), ParseError>)
    requires
        p <= s@.len(),
    ensures
        match after_field(s@, p as int, text_field(s@, p as int, kw.spec_bytes(), integrity)) {
            Ok((v, p2)) => r matches Ok((x, p3)) && x@ == v && p3 == p2 && p < p2 <= s@.len(),
            Err(x) => r == Err::<(Vec<u8>, usize), ParseError>(x),
        },
{
    let w = match keyword_ws1(s, p, kw) {
        Ok(w) => w,
        Err(e) => {
            return Err(e);
        },
    };
    let got = if integrity {
        integrity_string(s, w)
    } else {
        string(s, w)
    };
    let (v, e) = match got {
        Some(x) => x,
        None => {
            return Err(ParseError { location: w, kind: ParseErrorKind::Syntax });
        },
    };
    match semicolon(s, e) {
        Ok(p2) => Ok((v, p2)),
        Err(err) => Err(err),
    }
}

fn admin_step_head(s: &[u8], p: usize, parts: &mut AdminParts) -> (r: Result<usize, ParseError>)
    requires
        p <= s@.len(),
        old(parts).head is None && at_keyword(s@, p as int, "head".spec_bytes()),
    ensures
        match r {
            Err(x) => admin_fields(s@, p as int, admin_parts_view(*old(parts))) == Err::<(AdminAcc, int), ParseError>(x),
            Ok(p2) => p < p2 <= s@.len() && admin_fields(s@, p as int, admin_parts_view(*old(parts)))
                == admin_fields(s@, p2 as int, admin_parts_view(*final(parts))),
        },
{
    reveal(admin_fields);
    let ghost acc = admin_parts_view(*parts);
    let (v, p2) = match read_num_field(s, p, "head") {
        Ok(x) => x,
        Err(e) => {
            return Err(e);
        },
    };
    let ghost vv = opt_rev_view(v);
    parts.head = Some(v);
    assert(admin_parts_view(*parts) == AdminAcc { head: Some(vv), ..acc });
    Ok(p2)
}

fn admin_step_branch(s: &[u8], p: usize, parts: &mut AdminParts) -> (r: Result<usize, ParseError>)
    requires
        p <= s@.len(),
        !(old(parts).head is None && at_keyword(s@, p as int, "head".spec_bytes())),
        old(parts).branch is None && at_keyword(s@, p as int, "branch".spec_bytes()),
    ensures
        match r {
            Err(x) => admin_fields(s@, p as int, admin_parts_view(*old(parts))) == Err::<(AdminAcc, int), ParseError>(x),
            Ok(p2) => p < p2 <= s@.len() && admin_fields(s@, p as int, admin_parts_view(*old(parts)))
                == admin_fields(s@, p2 as int, admin_parts_view(*final(parts))),
        },
{
    reveal(admin_fields);
    let ghost acc = admin_parts_view(*parts);
    let (v, p2) = match read_num_field(s, p, "branch") {
        Ok(x) => x,
        Err(e) => {
            return Err(e);
        },
    };
    let ghost vv = opt_rev_view(v);
    parts.branch = Some(v);
    assert(admin_parts_view(*parts) == AdminAcc { branch: Some(vv), ..acc });
    Ok(p2)
}

fn admin_step_access(s: &[u8], p: usize, parts: &mut AdminParts) -> (r: Result<usize, ParseError>)
    requires
        p <= s@.len(),
        !(old(parts).head is None && at_keyword(s@, p as int, "head".spec_bytes())),
        !(old(parts).branch is None && at_keyword(s@, p as int, "branch".spec_bytes())),
        old(parts).access is None && at_keyword(s@, p as int, "access".spec_bytes()),
    ensures
        match r {
            Err(x) => admin_fields(s@, p as int, admin_parts_view(*old(parts))) == Err::<(AdminAcc, int), ParseError>(x),
            Ok(p2) => p < p2 <= s@.len() && admin_fields(s@, p as int, admin_parts_view(*old(parts)))
                == admin_fields(s@, p2 as int, admin_parts_view(*final(parts))),
        },
{
    reveal(admin_fields);
    let ghost acc = admin_parts_view(*parts);
    let (v, p2) = match access_list(s, skip_keyword(s, p, "access")) {
        Ok(x) => x,
        Err(e) => {
            return Err(e);
        },
    };
    let ghost vv = crate::ed::lines_view(v@);
    parts.access = Some(v);
    assert(admin_parts_view(*parts) == AdminAcc { access: Some(vv), ..acc });
    Ok(p2)
}

fn admin_step_symbols(s: &[u8], p: usize, parts: &mut AdminParts) -> (r: Result<usize, ParseError>)
    requires
        p <= s@.len(),
        !(old(parts).head is None && at_keyword(s@, p as int, "head".spec_bytes())),
        !(old(parts).branch is None && at_keyword(s@, p as int, "branch".spec_bytes())),
        !(old(parts).access is None && at_keyword(s@, p as int, "access".spec_bytes())),
        old(parts).symbols is None && at_keyword(s@, p as int, "symbols".spec_bytes()),
    ensures
        match r {
            Err(x) => admin_fields(s@, p as int, admin_parts_view(*old(parts))) == Err::<(AdminAcc, int), ParseError>(x),
            Ok(p2) => p < p2 <= s@.len() && admin_fields(s@, p as int, admin_parts_view(*old(parts)))
                == admin_fields(s@, p2 as int, admin_parts_view(*final(parts))),
        },
{
    reveal(admin_fields);
    let ghost acc = admin_parts_view(*parts);
    let (v, p2) = match pairs(s, skip_keyword(s, p, "symbols"), Class::Id) {
        Ok(x) => x,
        Err(e) => {
            return Err(e);
        },
    };
    let ghost vv = pairs_view(v@);
    parts.symbols = Some(v);
    assert(admin_parts_view(*parts) == AdminAcc { symbols: Some(vv), ..acc });
    Ok(p2)
}

fn admin_step_locks(s: &[u8], p: usize, parts: &mut AdminParts) -> (r: Result<usize, ParseError>)
    requires
        p <= s@.len(),
        !(old(parts).head is None && at_keyword(s@, p as int, "head".spec_bytes())),
        !(old(parts).branch is None && at_keyword(s@, p as int, "branch".spec_bytes())),
        !(old(parts).access is None && at_keyword(s@, p as int, "access".spec_bytes())),
        !(old(parts).symbols is None && at_keyword(s@, p as int, "symbols".spec_bytes())),
        old(parts).locks is None && at_keyword(s@, p as int, "locks".spec_bytes()),
    ensures
        match r {
            Err(x) => admin_fields(s@, p as int, admin_parts_view(*old(parts))) == Err::<(AdminAcc, int), ParseError>(x),
            Ok(p2) => p < p2 <= s@.len() && admin_fields(s@, p as int, admin_parts_view(*old(parts)))
                == admin_fields(s@, p2 as int, admin_parts_view(*final(parts))),
        },
{
    reveal(admin_fields);
    let ghost acc = admin_parts_view(*parts);
    let (v, p2) = match pairs(s, skip_keyword(s, p, "locks"), Class::IdOrDot) {
        Ok(x) => x,
        Err(e) => {
            return Err(e);
        },
    };
    let ghost vv = pairs_view(v@);
    parts.locks = Some(v);
    assert(admin_parts_view(*parts) == AdminAcc { locks: Some(vv), ..acc });
    Ok(p2)
}

fn admin_step_strict(s: &[u8], p: usize, parts: &mut AdminParts) -> (r: Result<usize, ParseError>)
    requires
        p <= s@.len(),
        !(old(parts).head is None && at_keyword(s@, p as int, "head".spec_bytes())),
        !(old(parts).branch is None && at_keyword(s@, p as int, "branch".spec_bytes())),
        !(old(parts).access is None && at_keyword(s@, p as int, "access".spec_bytes())),
        !(old(parts).symbols is None && at_keyword(s@, p as int, "symbols".spec_bytes())),
        !(old(parts).locks is None && at_keyword(s@, p as int, "locks".spec_bytes())),
        !old(parts).strict && at_keyword(s@, p as int, "strict".spec_bytes()),
    ensures
        match r {
            Err(x) => admin_fields(s@, p as int, admin_parts_view(*old(parts))) == Err::<(AdminAcc, int), ParseError>(x),
            Ok(p2) => p < p2 <= s@.len() && admin_fields(s@, p as int, admin_parts_view(*old(parts)))
                == admin_fields(s@, p2 as int, admin_parts_view(*final(parts))),
        },
{
    reveal(admin_fields);
    let ghost acc = admin_parts_view(*parts);
    let p2 = match semicolon(s, skip_keyword(s, p, "strict")) {
        Ok(x) => x,
        Err(e) => {
            return Err(e);
        },
    };
    parts.strict = true;
    assert(admin_parts_view(*parts) == AdminAcc { strict: true, ..acc });
    Ok(p2)
}

fn admin_step_integrity(s: &[u8], p: usize, parts: &mut AdminParts) -> (r: Result<usize, ParseError>)
    requires
        p <= s@.len(),
        !(old(parts).head is None && at_keyword(s@, p as int, "head".spec_bytes())),
        !(old(parts).branch is None && at_keyword(s@, p as int, "branch".spec_bytes())),
        !(old(parts).access is None && at_keyword(s@, p as int, "access".spec_bytes())),
        !(old(parts).symbols is None && at_keyword(s@, p as int, "symbols".spec_bytes())),
        !(old(parts).locks is None && at_keyword(s@, p as int, "locks".spec_bytes())),
        !(!old(parts).strict && at_keyword(s@, p as int, "strict".spec_bytes())),
        old(parts).integrity is None && at_keyword(s@, p as int, "integrity".spec_bytes()),
    ensures
        match r {
            Err(x) => admin_fields(s@, p as int, admin_parts_view(*old(parts))) == Err::<(AdminAcc, int), ParseError>(x),
            Ok(p2) => p < p2 <= s@.len() && admin_fields(s@, p as int, admin_parts_view(*old(parts)))
                == admin_fields(s@, p2 as int, admin_parts_view(*final(parts))),
        },
{
    reveal(admin_fields);
    let ghost acc = admin_parts_view(*parts);
    let (v, p2) = match read_text_field(s, p, "integrity", true) {
        Ok(x) => x,
        Err(e) => {
            return Err(e);
        },
    };
    let ghost vv = v@;
    parts.integrity = Some(v);
    assert(admin_parts_view(*parts) == AdminAcc { integrity: Some(vv), ..acc });
    Ok(p2)
}

fn admin_step_comment(s: &[u8], p: usize, parts: &mut AdminParts) -> (r: Result<usize, ParseError>)
    requires
        p <= s@.len(),
        !(old(parts).head is None && at_keyword(s@, p as int, "head".spec_bytes())),
        !(old(parts).branch is None && at_keyword(s@, p as int, "branch".spec_bytes())),
        !(old(parts).access is None && at_keyword(s@, p as int, "access".spec_bytes())),
        !(old(parts).symbols is None && at_keyword(s@, p as int, "symbols".spec_bytes())),
        !(old(parts).locks is None && at_keyword(s@, p as int, "locks".spec_bytes())),
        !(!old(parts).strict && at_keyword(s@, p as int, "strict".spec_bytes())),
        !(old(parts).integrity is None && at_keyword(s@, p as int, "integrity".spec_bytes())),
        old(parts).comment is None && at_keyword(s@, p as int, "comment".spec_bytes()),
    ensures
        match r {
            Err(x) => admin_fields(s@, p as int, admin_parts_view(*old(parts))) == Err::<(AdminAcc, int), ParseError>(x),
            Ok(p2) => p < p2 <= s@.len() && admin_fields(s@, p as int, admin_parts_view(*old(parts)))
                == admin_fields(s@, p2 as int, admin_parts_view(*final(parts))),
        },
{
    reveal(admin_fields);
    let ghost acc = admin_parts_view(*parts);
    let (v, p2) = match read_text_field(s, p, "comment", false) {
        Ok(x) => x,
        Err(e) => {
            return Err(e);
        },
    };
    let ghost vv = v@;
    parts.comment = Some(v);
    assert(admin_parts_view(*parts) == AdminAcc { comment: Some(vv), ..acc });
    Ok(p2)
}

fn admin_step_expand(s: &[u8], p: usize, parts: &mut AdminParts) -> (r: Result<usize, ParseError>)
    requires
        p <= s@.len(),
        !(old(parts).head is None && at_keyword(s@, p as int, "head".spec_bytes())),
        !(old(parts).branch is None && at_keyword(s@, p as int, "branch".spec_bytes())),
        !(old(parts).access is None && at_keyword(s@, p as int, "access".spec_bytes())),
        !(old(parts).symbols is None && at_keyword(s@, p as int, "symbols".spec_bytes())),
        !(old(parts).locks is None && at_keyword(s@, p as int, "locks".spec_bytes())),
        !(!old(parts).strict && at_keyword(s@, p as int, "strict".spec_bytes())),
        !(old(parts).integrity is None && at_keyword(s@, p as int, "integrity".spec_bytes())),
        !(old(parts).comment is None && at_keyword(s@, p as int, "comment".spec_bytes())),
        old(parts).expand is None && at_keyword(s@, p as int, "expand".spec_bytes()),
    ensures
        match r {
            Err(x) => admin_fields(s@, p as int, admin_parts_view(*old(parts))) == Err::<(AdminAcc, int), ParseError>(x),
            Ok(p2) => p < p2 <= s@.len() && admin_fields(s@, p as int, admin_parts_view(*old(parts)))
                == admin_fields(s@, p2 as int, admin_parts_view(*final(parts))),
        },
{
    reveal(admin_fields);
    let ghost acc = admin_parts_view(*parts);
    let (v, p2) = match read_text_field(s, p, "expand", false) {
        Ok(x) => x,
        Err(e) => {
            return Err(e);
        },
    };
    let ghost vv = v@;
    parts.expand = Some(v);
    assert(admin_parts_view(*parts) == AdminAcc { expand: Some(vv), ..acc });
    Ok(p2)
}

/// Reads one admin field into `parts`: `None` where no field that is still
/// missing starts at `p`.
fn admin_step(s: &[u8], p: usize, parts: &mut AdminParts) -> (r: Result<Option<usize>, ParseError>)
    requires
        p <= s@.len(),
    ensures
        match r {
            Err(x) => admin_fields(s@, p as int, admin_parts_view(*old(parts))) == Err::<(AdminAcc, int), ParseError>(x),
            Ok(None) => admin_fields(s@, p as int, admin_parts_view(*old(parts))) == Ok::<(AdminAcc, int), ParseError>(
                (admin_parts_view(*old(parts)), p as int),
            ) && admin_parts_view(*final(parts)) == admin_parts_view(*old(parts)),
            Ok(Some(p2)) => p < p2 <= s@.len() && admin_fields(s@, p as int, admin_parts_view(*old(parts)))
                == admin_fields(s@, p2 as int, admin_parts_view(*final(parts))),
        },
{
    let r = if parts.head.is_none() && keyword(s, p, "head") {
        admin_step_head(s, p, parts)
    } else if parts.branch.is_none() && keyword(s, p, "branch") {
        admin_step_branch(s, p, parts)
    } else if parts.access.is_none() && keyword(s, p, "access") {
        admin_step_access(s, p, parts)
    } else if parts.symbols.is_none() && keyword(s, p, "symbols") {
        admin_step_symbols(s, p, parts)
    } else if parts.locks.is_none() && keyword(s, p, "locks") {
        admin_step_locks(s, p, parts)
    } else if !parts.strict && keyword(s, p, "strict") {
        admin_step_strict(s, p, parts)
    } else if parts.integrity.is_none() && keyword(s, p, "integrity") {
        admin_step_integrity(s, p, parts)
    } else if parts.comment.is_none() && keyword(s, p, "comment") {
        admin_step_comment(s, p, parts)
    } else if parts.expand.is_none() && keyword(s, p, "expand") {
        admin_step_expand(s, p, parts)
    } else {
        proof {
            reveal(admin_fields);
        }
        return Ok(None);
    };
    match r {
        Ok(p2) => Ok(Some(p2)),
        Err(e) => Err(e),
    }
}

/// Reads the admin block. Its fields may come in any order, each at most
/// once; `head`, `access`, `symbols` and `locks` must be there.
pub fn admin(s: &[u8], pos: usize) -> (r: Result<(Admin, usize), ParseError>)
    requires
        pos <= s@.len(),
    ensures
        r matches Ok((_, e)) ==> pos <= e <= s@.len(),
        match admin_spec(s@, pos as int) {
            Ok((a, e)) => r matches Ok((x, e2)) && admin_view(x) == a && e2 == e,
            Err(x) => r == Err::<(Admin, usize), ParseError>(x),
        },
{
    let mut parts = AdminParts {
        head: None,
        branch: None,
        access: None,
        symbols: None,
        locks: None,
        strict: false,
        integrity: None,
        comment: None,
        expand: None,
    };
    let mut p = skip_ws(s, pos);
    let ghost p0 = p;
    assert(admin_parts_view(parts) == empty_admin());
    let mut done = false;
    while !done
        invariant
            pos <= p0 <= p <= s@.len(),
            p0 == space_end(s@, pos as int),
            !done ==> admin_fields(s@, p0 as int, empty_admin()) == admin_fields(s@, p as int, admin_parts_view(parts)),
            done ==> admin_fields(s@, p0 as int, empty_admin()) == Ok::<(AdminAcc, int), ParseError>(
                (admin_parts_view(parts), p as int),
            ),
        decreases s@.len() - p + if done { 0int } else { 1int },
    {
        match admin_step(s, p, &mut parts) {
            Err(e) => {
                return Err(e);
            },
            Ok(None) => {
                done = true;
            },
            Ok(Some(p2)) => {
                p = p2;
            },
        }
    }
    let missing = ParseError { location: p, kind: ParseErrorKind::Syntax };
    let AdminParts { head, branch, access, symbols, locks, strict, integrity, comment, expand } = parts;
    let head = match head {
        Some(h) => h,
        None => {
            return Err(missing);
        },
    };
    let access = match access {
        Some(a) => a,
        None => {
            return Err(missing);
        },
    };
    let symbols = match symbols {
        Some(a) => a,
        None => {
            return Err(missing);
        },
    };
    let locks = match locks {
        Some(a) => a,
        None => {
            return Err(missing);
        },
    };
    let branch: Option<Num> = match branch {
        Some(b) => b,
        None => None,
    };
    Ok(
        (
            Admin { head, branch, access, symbols, locks, strict, integrity, comment, expand },
            p,
        ),
    )
}

/// A keyword at `pos` followed by at least one whitespace byte: where what
/// follows starts.
pub open spec fn keyword_ws1_spec(s: Seq<u8>, pos: int, kw: Seq<u8>) -> Option<int> {
    let w = space_end(s, pos + kw.len());
    if 0 <= pos <= s.len() && starts_with(s.subrange(pos, s.len() as int), kw) && w > pos + kw.len() {
        Some(w)
    } else {
        None
    }
}

/// A delta text at `pos`: revision, `log`, log string, `text`, text string.
pub open spec fn delta_text_spec(s: Seq<u8>, pos: int) -> Option<((bool, Seq<u64>), Seq<u8>, Seq<u8>, int)> {
    match num_spec(s, pos) {
        Err(_) => None,
        Ok((n, e1)) => {
            let w1 = space_end(s, e1);
            if w1 == e1 {
                None
            } else {
                match keyword_ws1_spec(s, w1, "log".spec_bytes()) {
                    None => None,
                    Some(w2) => match string_spec(s, w2) {
                        None => None,
                        Some((log, e2)) => {
                            let w3 = space_end(s, e2);
                            if w3 == e2 {
                                None
                            } else {
                                match keyword_ws1_spec(s, w3, "text".spec_bytes()) {
                                    None => None,
                                    Some(w4) => match string_spec(s, w4) {
                                        None => None,
                                        Some((text, e3)) => Some((n, log, text, e3)),
                                    },
                                }
                            }
                        },
                    },
                }
            }
        },
    }
}

fn keyword_ws1_exact(s: &[u8], pos: usize, kw: &str) -> (r: Option<usize>)
    requires
        pos <= s@.len(),
    ensures
        keyword_ws1_spec(s@, pos as int, kw.spec_bytes()) is None ==> r is None,
        keyword_ws1_spec(s@, pos as int, kw.spec_bytes()) is Some ==> r is Some,
        r matches Some(w) ==> pos < w <= s@.len() && keyword_ws1_spec(s@, pos as int, kw.spec_bytes())
            == Some(w as int),
{
    if !keyword(s, pos, kw) {
        return None;
    }
    let k = skip_keyword(s, pos, kw);
    let w = skip_ws(s, k);
    if w == k {
        return None;
    }
    Some(w)
}

/// Reads a delta text: revision, `log` and its string, `text` and its
/// string.
pub fn delta_text(s: &[u8], pos: usize) -> (r: Result<(Num, DeltaText, usize), ParseError>)
    requires
        pos <= s@.len(),
    ensures
        match delta_text_spec(s@, pos as int) {
            None => r is Err,
            Some((n, log, text, e)) => r matches Ok((num, t, e2)) && num.is_branch() == n.0
                && num.parts() == n.1 && t.log@ == log && t.text@ == text && e2 == e,
        },
        r matches Ok((_, _, e)) ==> pos < e <= s@.len(),
{
    let (n, e1) = match num(s, pos) {
        Ok(x) => x,
        Err(err) => {
            return Err(err);
        },
    };
    let w1 = skip_ws(s, e1);
    if w1 == e1 {
        return Err(ParseError { location: w1, kind: ParseErrorKind::Syntax });
    }
    let w2 = match keyword_ws1_exact(s, w1, "log") {
        Some(w) => w,
        None => {
            return Err(ParseError { location: w1, kind: ParseErrorKind::Syntax });
        },
    };
    let (log, e2) = match string(s, w2) {
        Some(x) => x,
        None => {
            return Err(ParseError { location: w2, kind: ParseErrorKind::Syntax });
        },
    };
    let w3 = skip_ws(s, e2);
    if w3 == e2 {
        return Err(ParseError { location: w3, kind: ParseErrorKind::Syntax });
    }
    let w4 = match keyword_ws1_exact(s, w3, "text") {
        Some(w) => w,
        None => {
            return Err(ParseError { location: w3, kind: ParseErrorKind::Syntax });
        },
    };
    let (text, e3) = match string(s, w4) {
        Some(x) => x,
        None => {
            return Err(ParseError { location: w4, kind: ParseErrorKind::Syntax });
        },
    };
    Ok((n, DeltaText { log, text }, e3))
}

/// `n` is what a revision number somewhere in `s` reads as.
pub open spec fn num_read_at(s: Seq<u8>, n: Num) -> bool {
    exists|w: int|
        0 <= w <= s.len() && (#[trigger] num_spec(s, w) matches Ok((m, _)) && n.is_branch() == m.0
            && n.parts() == m.1)
}

/// The fields of a delta read so far.
pub struct DeltaAcc {
    pub date: Option<RcsDate>,
    pub author: Option<Seq<u8>>,
    pub state: Option<Option<Seq<u8>>>,
    pub branches: Option<Seq<(bool, Seq<u64>)>>,
    pub next: Option<Option<(bool, Seq<u64>)>>,
    pub commit_id: Option<Seq<u8>>,
}

/// What a delta record holds.
pub struct DeltaView {
    pub date: RcsDate,
    pub author: Seq<u8>,
    pub state: Option<Seq<u8>>,
    pub branches: Seq<(bool, Seq<u64>)>,
    pub next: Option<(bool, Seq<u64>)>,
    pub commit_id: Option<Seq<u8>>,
}

pub open spec fn delta_view(d: Delta) -> DeltaView {
    DeltaView {
        date: d.date,
        author: d.author@,
        state: match d.state {
            Some(x) => Some(x@),
            None => None,
        },
        branches: revs_view(d.branches@),
        next: opt_rev_view(d.next),
        commit_id: match d.commit_id {
            Some(x) => Some(x@),
            None => None,
        },
    }
}

pub open spec fn at_keyword(s: Seq<u8>, p: int, kw: Seq<u8>) -> bool {
    starts_with(s.subrange(p, s.len() as int), kw)
}

/// `kw`, whitespace, a date and `;`: the date and where the next field
/// starts.
pub open spec fn date_field(s: Seq<u8>, p: int) -> Result<(RcsDate, int), ParseError> {
    match kw_ws1_spec(s, p, "date".spec_bytes()) {
        Err(x) => Err(x),
        Ok(w) => match date_spec(s, w) {
            Err(k) => Err(ParseError { location: w as usize, kind: k }),
            Ok((d, e)) => match semicolon_spec(s, e) {
                Err(x) => Err(x),
                Ok(p2) => Ok((d, p2)),
            },
        },
    }
}

/// `kw`, whitespace, a run of the class (possibly empty) and `;`.
pub open spec fn word_field(s: Seq<u8>, p: int, kw: Seq<u8>, c: Class) -> Result<(Seq<u8>, int), ParseError> {
    match kw_ws1_spec(s, p, kw) {
        Err(x) => Err(x),
        Ok(w) => {
            let e = class_end(s, w, class_fn(c));
            match semicolon_spec(s, e) {
                Err(x) => Err(x),
                Ok(p2) => Ok((s.subrange(w, e), p2)),
            }
        },
    }
}

/// `next`, whitespace, an optional number and `;`.
pub open spec fn next_field(s: Seq<u8>, p: int) -> Result<(Option<(bool, Seq<u64>)>, int), ParseError> {
    match kw_ws1_spec(s, p, "next".spec_bytes()) {
        Err(x) => Err(x),
        Ok(w) => match opt_num_spec(s, w) {
            Err(x) => Err(x),
            Ok((n, e)) => match semicolon_spec(s, e) {
                Err(x) => Err(x),
                Ok(p2) => Ok((n, p2)),
            },
        },
    }
}

/// A field's value and where the next field starts, then the rest.
pub open spec fn after_field<T>(s: Seq<u8>, p: int, r: Result<(T, int), ParseError>) -> Result<(T, int), ParseError> {
    match r {
        Err(x) => Err(x),
        Ok((v, p2)) => if p2 <= p || p2 > s.len() {
            Err(syntax_at(p))
        } else {
            Ok((v, p2))
        },
    }
}

/// The fields of a delta from `p` on, in any order and each at most once,
/// up to the first byte that starts none of them.
#[verifier::opaque]
pub open spec fn delta_fields(s: Seq<u8>, p: int, acc: DeltaAcc) -> Result<(DeltaAcc, int), ParseError>
    decreases s.len() - p,
{
    if p < 0 || p > s.len() {
        Err(syntax_at(p))
    } else if acc.date is None && at_keyword(s, p, "date".spec_bytes()) {
        match after_field(s, p, date_field(s, p)) {
            Err(x) => Err(x),
            Ok((d, p2)) => delta_fields(s, p2, DeltaAcc { date: Some(d), ..acc }),
        }
    } else if acc.author is None && at_keyword(s, p, "author".spec_bytes()) {
        match after_field(s, p, word_field(s, p, "author".spec_bytes(), Class::IdOrDot)) {
            Err(x) => Err(x),
            Ok((v, p2)) => delta_fields(s, p2, DeltaAcc { author: Some(v), ..acc }),
        }
    } else if acc.state is None && at_keyword(s, p, "state".spec_bytes()) {
        match after_field(s, p, word_field(s, p, "state".spec_bytes(), Class::IdOrDot)) {
            Err(x) => Err(x),
            Ok((v, p2)) => delta_fields(
                s,
                p2,
                DeltaAcc {
                    state: Some(
                        if v.len() == 0 {
                            None
                        } else {
                            Some(v)
                        },
                    ),
                    ..acc
                },
            ),
        }
    } else if acc.branches is None && at_keyword(s, p, "branches".spec_bytes()) {
        match after_field(s, p, num_list_spec(s, p + "branches".spec_bytes().len())) {
            Err(x) => Err(x),
            Ok((v, p2)) => delta_fields(s, p2, DeltaAcc { branches: Some(v), ..acc }),
        }
    } else if acc.next is None && at_keyword(s, p, "next".spec_bytes()) {
        match after_field(s, p, next_field(s, p)) {
            Err(x) => Err(x),
            Ok((v, p2)) => delta_fields(s, p2, DeltaAcc { next: Some(v), ..acc }),
        }
    } else if acc.commit_id is None && at_keyword(s, p, "commitid".spec_bytes()) {
        match after_field(s, p, word_field(s, p, "commitid".spec_bytes(), Class::Id)) {
            Err(x) => Err(x),
            Ok((v, p2)) => delta_fields(s, p2, DeltaAcc { commit_id: Some(v), ..acc }),
        }
    } else {
        Ok((acc, p))
    }
}

/// What a delta record at `pos` reads as: its number, its fields, and where
/// it ends; a missing mandatory field fails where the fields end.
pub open spec fn delta_spec(s: Seq<u8>, pos: int) -> Result<((bool, Seq<u64>), DeltaView, int), ParseError> {
    match num_spec(s, pos) {
        Err(k) => Err(ParseError { location: pos as usize, kind: k }),
        Ok((n, e1)) => {
            let p = space_end(s, e1);
            if p == e1 {
                Err(syntax_at(p))
            } else {
                let empty = DeltaAcc {
                    date: None,
                    author: None,
                    state: None,
                    branches: None,
                    next: None,
                    commit_id: None,
                };
                delta_finish(n, delta_fields(s, p, empty))
            }
        },
    }
}

/// A delta from its number and its fields; a missing mandatory field fails
/// where the fields end.
pub open spec fn delta_finish(n: (bool, Seq<u64>), fields: Result<(DeltaAcc, int), ParseError>) -> Result<((bool, Seq<u64>), DeltaView, int), ParseError> {
    match fields {
        Err(x) => Err(x),
        Ok((acc, e)) => if acc.date is Some && acc.author is Some && acc.state is Some
            && acc.branches is Some && acc.next is Some {
            Ok(
                (
                    n,
                    DeltaView {
                        date: acc.date->0,
                        author: acc.author->0,
                        state: acc.state->0,
                        branches: acc.branches->0,
                        next: acc.next->0,
                        commit_id: acc.commit_id,
                    },
                    e,
                ),
            )
        } else {
            Err(syntax_at(e))
        },
    }
}


/// The fields of a delta read so far.
struct DeltaParts {
    date: Option<RcsDate>,
    author: Option<Vec<u8>>,
    state: Option<Option<Vec<u8>>>,
    branches: Option<Vec<Num>>,
    next: Option<Option<Num>>,
    commit_id: Option<Vec<u8>>,
}

spec fn parts_view(d: DeltaParts) -> DeltaAcc {
    DeltaAcc {
        date: d.date,
        author: opt_bytes_view(d.author),
        state: match d.state {
            Some(x) => Some(opt_bytes_view(x)),
            None => None,
        },
        branches: match d.branches {
            Some(v) => Some(revs_view(v@)),
            None => None,
        },
        next: match d.next {
            Some(x) => Some(opt_rev_view(x)),
            None => None,
        },
        commit_id: opt_bytes_view(d.commit_id),
    }
}

fn read_date_field(s: &[u8], p: usize) -> (r: Result<(RcsDate, usize), ParseError>)
    requires
        p <= s@.len(),
    ensures
        match after_field(s@, p as int, date_field(s@, p as int)) {
            Ok((d, p2)) => r matches Ok((x, p3)) && x == d && p3 == p2 && p < p2 <= s@.len(),
            Err(x) => r == Err::<(RcsDate, usize), ParseError>(x),
        },
{
    let w = match keyword_ws1(s, p, "date") {
        Ok(w) => w,
        Err(e) => {
            return Err(e);
        },
    };
    let (d, e) = match date(s, w) {
        Ok(x) => x,
        Err(err) => {
            return Err(err);
        },
    };
    let len = s.len();
    assert(date_spec(s@, w as int) == Ok::<(RcsDate, int), ParseErrorKind>((d, e as int)));
    match semicolon(s, e) {
        Ok(p2) => Ok((d, p2)),
        Err(err) => Err(err),
    }
}

fn read_word_field(s: &[u8], p: usize, kw: &str, c: Class) -> (r: Result<(Vec<u8>, usize), ParseError>)
    requires
        p <= s@.len(),
    ensures
        match after_field(s@, p as int, word_field(s@, p as int, kw.spec_bytes(), c)) {
            Ok((v, p2)) => r matches Ok((x, p3)) && x@ == v && p3 == p2 && p < p2 <= s@.len(),
            Err(x) => r == Err::<(Vec<u8>, usize), ParseError>(x),
        },
{
    let w = match keyword_ws1(s, p, kw) {
        Ok(w) => w,
        Err(e) => {
            return Err(e);
        },
    };
    let e = scan_class(s, w, c);
    let v = slice_copy(s, w, e);
    match semicolon(s, e) {
        Ok(p2) => Ok((v, p2)),
        Err(err) => Err(err),
    }
}

fn read_next_field(s: &[u8], p: usize) -> (r: Result<(Option<Num>, usize), ParseError>)
    requires
        p <= s@.len(),
    ensures
        match after_field(s@, p as int, next_field(s@, p as int)) {
            Ok((v, p2)) => r matches Ok((x, p3)) && opt_rev_view(x) == v && p3 == p2 && p < p2 <= s@.len(),
            Err(x) => r == Err::<(Option<Num>, usize), ParseError>(x),
        },
{
    let w = match keyword_ws1(s, p, "next") {
        Ok(w) => w,
        Err(e) => {
            return Err(e);
        },
    };
    let (v, e) = match opt_num(s, w) {
        Ok(x) => x,
        Err(err) => {
            return Err(err);
        },
    };
    match semicolon(s, e) {
        Ok(p2) => Ok((v, p2)),
        Err(err) => Err(err),
    }
}

fn read_branches_field(s: &[u8], p: usize) -> (r: Result<(Vec<Num>, usize), ParseError>)
    requires
        p <= s@.len(),
        at_keyword(s@, p as int, "branches".spec_bytes()),
    ensures
        match after_field(s@, p as int, num_list_spec(s@, p + "branches".spec_bytes().len())) {
            Ok((v, p2)) => r matches Ok((x, p3)) && revs_view(x@) == v && p3 == p2 && p < p2 <= s@.len(),
            Err(x) => r == Err::<(Vec<Num>, usize), ParseError>(x),
        },
{
    num_list(s, skip_keyword(s, p, "branches"))
}

/// Reads the `date` field of a delta into `parts`.
fn step_date(s: &[u8], p: usize, parts: &mut DeltaParts) -> (r: Result<usize, ParseError>)
    requires
        p <= s@.len(),
        old(parts).date is None,
        at_keyword(s@, p as int, "date".spec_bytes()),
    ensures
        match r {
            Err(x) => delta_fields(s@, p as int, parts_view(*old(parts))) == Err::<(DeltaAcc, int), ParseError>(x),
            Ok(p2) => p < p2 <= s@.len() && delta_fields(s@, p as int, parts_view(*old(parts)))
                == delta_fields(s@, p2 as int, parts_view(*final(parts))),
        },
{
    reveal(delta_fields);
    let ghost acc = parts_view(*parts);
    let (d, p2) = match read_date_field(s, p) {
        Ok(x) => x,
        Err(e) => {
            return Err(e);
        },
    };
    parts.date = Some(d);
    assert(parts_view(*parts) == DeltaAcc { date: Some(d), ..acc });
    Ok(p2)
}

/// Reads the `author` field of a delta into `parts`.
fn step_author(s: &[u8], p: usize, parts: &mut DeltaParts) -> (r: Result<usize, ParseError>)
    requires
        p <= s@.len(),
        !(old(parts).date is None && at_keyword(s@, p as int, "date".spec_bytes())),
        old(parts).author is None,
        at_keyword(s@, p as int, "author".spec_bytes()),
    ensures
        match r {
            Err(x) => delta_fields(s@, p as int, parts_view(*old(parts))) == Err::<(DeltaAcc, int), ParseError>(x),
            Ok(p2) => p < p2 <= s@.len() && delta_fields(s@, p as int, parts_view(*old(parts)))
                == delta_fields(s@, p2 as int, parts_view(*final(parts))),
        },
{
    reveal(delta_fields);
    let ghost acc = parts_view(*parts);
    let (v, p2) = match read_word_field(s, p, "author", Class::IdOrDot) {
        Ok(x) => x,
        Err(e) => {
            return Err(e);
        },
    };
    let ghost vv = v@;
    parts.author = Some(v);
    assert(parts_view(*parts) == DeltaAcc { author: Some(vv), ..acc });
    Ok(p2)
}

/// Reads the `state` field of a delta into `parts`.
fn step_state(s: &[u8], p: usize, parts: &mut DeltaParts) -> (r: Result<usize, ParseError>)
    requires
        p <= s@.len(),
        !(old(parts).date is None && at_keyword(s@, p as int, "date".spec_bytes())),
        !(old(parts).author is None && at_keyword(s@, p as int, "author".spec_bytes())),
        old(parts).state is None,
        at_keyword(s@, p as int, "state".spec_bytes()),
    ensures
        match r {
            Err(x) => delta_fields(s@, p as int, parts_view(*old(parts))) == Err::<(DeltaAcc, int), ParseError>(x),
            Ok(p2) => p < p2 <= s@.len() && delta_fields(s@, p as int, parts_view(*old(parts)))
                == delta_fields(s@, p2 as int, parts_view(*final(parts))),
        },
{
    reveal(delta_fields);
    let ghost acc = parts_view(*parts);
    let (v, p2) = match read_word_field(s, p, "state", Class::IdOrDot) {
        Ok(x) => x,
        Err(e) => {
            return Err(e);
        },
    };
    let ghost vv = v@;
    parts.state = Some(
        if v.len() == 0 {
            None
        } else {
            Some(v)
        },
    );
    assert(parts_view(*parts) == DeltaAcc {
        state: Some(
            if vv.len() == 0 {
                None
            } else {
                Some(vv)
            },
        ),
        ..acc
    });
    Ok(p2)
}

/// Reads the `branches` field of a delta into `parts`.
fn step_branches(s: &[u8], p: usize, parts: &mut DeltaParts) -> (r: Result<usize, ParseError>)
    requires
        p <= s@.len(),
        !(old(parts).date is None && at_keyword(s@, p as int, "date".spec_bytes())),
        !(old(parts).author is None && at_keyword(s@, p as int, "author".spec_bytes())),
        !(old(parts).state is None && at_keyword(s@, p as int, "state".spec_bytes())),
        old(parts).branches is None,
        at_keyword(s@, p as int, "branches".spec_bytes()),
    ensures
        match r {
            Err(x) => delta_fields(s@, p as int, parts_view(*old(parts))) == Err::<(DeltaAcc, int), ParseError>(x),
            Ok(p2) => p < p2 <= s@.len() && delta_fields(s@, p as int, parts_view(*old(parts)))
                == delta_fields(s@, p2 as int, parts_view(*final(parts))),
        },
{
    reveal(delta_fields);
    let ghost acc = parts_view(*parts);
    let (v, p2) = match read_branches_field(s, p) {
        Ok(x) => x,
        Err(e) => {
            return Err(e);
        },
    };
    let ghost vv = revs_view(v@);
    parts.branches = Some(v);
    assert(parts_view(*parts) == DeltaAcc { branches: Some(vv), ..acc });
    Ok(p2)
}

/// Reads the `next` field of a delta into `parts`.
fn step_next(s: &[u8], p: usize, parts: &mut DeltaParts) -> (r: Result<usize, ParseError>)
    requires
        p <= s@.len(),
        !(old(parts).date is None && at_keyword(s@, p as int, "date".spec_bytes())),
        !(old(parts).author is None && at_keyword(s@, p as int, "author".spec_bytes())),
        !(old(parts).state is None && at_keyword(s@, p as int, "state".spec_bytes())),
        !(old(parts).branches is None && at_keyword(s@, p as int, "branches".spec_bytes())),
        old(parts).next is None,
        at_keyword(s@, p as int, "next".spec_bytes()),
    ensures
        match r {
            Err(x) => delta_fields(s@, p as int, parts_view(*old(parts))) == Err::<(DeltaAcc, int), ParseError>(x),
            Ok(p2) => p < p2 <= s@.len() && delta_fields(s@, p as int, parts_view(*old(parts)))
                == delta_fields(s@, p2 as int, parts_view(*final(parts))),
        },
{
    reveal(delta_fields);
    let ghost acc = parts_view(*parts);
    let (v, p2) = match read_next_field(s, p) {
        Ok(x) => x,
        Err(e) => {
            return Err(e);
        },
    };
    let ghost vv = opt_rev_view(v);
    parts.next = Some(v);
    assert(parts_view(*parts) == DeltaAcc { next: Some(vv), ..acc });
    Ok(p2)
}

/// Reads the `commitid` field of a delta into `parts`.
fn step_commit_id(s: &[u8], p: usize, parts: &mut DeltaParts) -> (r: Result<usize, ParseError>)
    requires
        p <= s@.len(),
        !(old(parts).date is None && at_keyword(s@, p as int, "date".spec_bytes())),
        !(old(parts).author is None && at_keyword(s@, p as int, "author".spec_bytes())),
        !(old(parts).state is None && at_keyword(s@, p as int, "state".spec_bytes())),
        !(old(parts).branches is None && at_keyword(s@, p as int, "branches".spec_bytes())),
        !(old(parts).next is None && at_keyword(s@, p as int, "next".spec_bytes())),
        old(parts).commit_id is None,
        at_keyword(s@, p as int, "commitid".spec_bytes()),
    ensures
        match r {
            Err(x) => delta_fields(s@, p as int, parts_view(*old(parts))) == Err::<(DeltaAcc, int), ParseError>(x),
            Ok(p2) => p < p2 <= s@.len() && delta_fields(s@, p as int, parts_view(*old(parts)))
                == delta_fields(s@, p2 as int, parts_view(*final(parts))),
        },
{
    reveal(delta_fields);
    let ghost acc = parts_view(*parts);
    let (v, p2) = match read_word_field(s, p, "commitid", Class::Id) {
        Ok(x) => x,
        Err(e) => {
            return Err(e);
        },
    };
    let ghost vv = v@;
    parts.commit_id = Some(v);
    assert(parts_view(*parts) == DeltaAcc { commit_id: Some(vv), ..acc });
    Ok(p2)
}

/// Reads one field of a delta into `parts`: `None` where no field that is
/// still missing starts at `p`.
fn delta_step(s: &[u8], p: usize, parts: &mut DeltaParts) -> (r: Result<Option<usize>, ParseError>)
    requires
        p <= s@.len(),
    ensures
        match r {
            Err(x) => delta_fields(s@, p as int, parts_view(*old(parts))) == Err::<(DeltaAcc, int), ParseError>(x),
            Ok(None) => delta_fields(s@, p as int, parts_view(*old(parts))) == Ok::<(DeltaAcc, int), ParseError>(
                (parts_view(*old(parts)), p as int),
            ) && parts_view(*final(parts)) == parts_view(*old(parts)),
            Ok(Some(p2)) => p < p2 <= s@.len() && delta_fields(s@, p as int, parts_view(*old(parts)))
                == delta_fields(s@, p2 as int, parts_view(*final(parts))),
        },
{
    let r = if parts.date.is_none() && keyword(s, p, "date") {
        step_date(s, p, parts)
    } else if parts.author.is_none() && keyword(s, p, "author") {
        step_author(s, p, parts)
    } else if parts.state.is_none() && keyword(s, p, "state") {
        step_state(s, p, parts)
    } else if parts.branches.is_none() && keyword(s, p, "branches") {
        step_branches(s, p, parts)
    } else if parts.next.is_none() && keyword(s, p, "next") {
        step_next(s, p, parts)
    } else if parts.commit_id.is_none() && keyword(s, p, "commitid") {
        step_commit_id(s, p, parts)
    } else {
        proof {
            reveal(delta_fields);
        }
        return Ok(None);
    };
    match r {
        Ok(p2) => Ok(Some(p2)),
        Err(e) => Err(e),
    }
}

/// Reads a delta record: its revision number, then its fields in any
/// order, each at most once; `date`, `author`, `state`, `branches` and
/// `next` must be there, `commitid` may be.
pub fn delta(s: &[u8], pos: usize) -> (r: Result<(Num, Delta, usize), ParseError>)
    requires
        pos <= s@.len(),
    ensures
        r matches Ok((_, _, e)) ==> pos < e <= s@.len(),
        match delta_spec(s@, pos as int) {
            Ok((n, d, e)) => r matches Ok((m, x, e2)) && rev_view(m) == n && delta_view(x) == d && e2
                == e,
            Err(x) => r == Err::<(Num, Delta, usize), ParseError>(x),
        },
{
    let (n, e1) = match num(s, pos) {
        Ok(x) => x,
        Err(err) => {
            return Err(err);
        },
    };
    let mut p = skip_ws(s, e1);
    if p == e1 {
        return Err(ParseError { location: p, kind: ParseErrorKind::Syntax });
    }
    let mut parts = DeltaParts {
        date: None,
        author: None,
        state: None,
        branches: None,
        next: None,
        commit_id: None,
    };
    let ghost p0 = p;
    let ghost empty = parts_view(parts);
    assert(delta_spec(s@, pos as int) == delta_finish(rev_view(n), delta_fields(s@, p0 as int, empty)));
    let mut done = false;
    while !done
        invariant
            pos < p <= s@.len(),
            delta_spec(s@, pos as int) == delta_finish(rev_view(n), delta_fields(s@, p0 as int, empty)),
            !done ==> delta_fields(s@, p0 as int, empty) == delta_fields(s@, p as int, parts_view(parts)),
            done ==> delta_fields(s@, p0 as int, empty) == Ok::<(DeltaAcc, int), ParseError>(
                (parts_view(parts), p as int),
            ),
        decreases s@.len() - p + if done { 0int } else { 1int },
    {
        match delta_step(s, p, &mut parts) {
            Err(e) => {
                return Err(e);
            },
            Ok(None) => {
                done = true;
            },
            Ok(Some(p2)) => {
                p = p2;
            },
        }
    }
    let missing = ParseError { location: p, kind: ParseErrorKind::Syntax };
    let DeltaParts { date, author, state, branches, next, commit_id } = parts;
    let date_v = match date {
        Some(d) => d,
        None => {
            return Err(missing);
        },
    };
    let author = match author {
        Some(a) => a,
        None => {
            return Err(missing);
        },
    };
    let state = match state {
        Some(a) => a,
        None => {
            return Err(missing);
        },
    };
    let branches = match branches {
        Some(a) => a,
        None => {
            return Err(missing);
        },
    };
    let next = match next {
        Some(a) => a,
        None => {
            return Err(missing);
        },
    };
    Ok((n, Delta { date: date_v, author, state, branches, next, commit_id }, p))
}

pub open spec fn opt_bytes_view(v: Option<Vec<u8>>) -> Option<Seq<u8>> {
    match v {
        Some(x) => Some(x@),
        None => None,
    }
}

proof fn lemma_date_end(s: Seq<u8>, pos: int)
    requires
        0 <= pos <= s.len(),
    ensures
        date_spec(s, pos) matches Ok((_, e)) ==> pos < e <= s.len(),
{
    if let Some((f, e)) = date_fields(s, pos) {
        lemma_date_fields_end(s, pos, 6);
    }
}

proof fn lemma_digit_end_bounds(s: Seq<u8>, pos: int)
    requires
        0 <= pos <= s.len(),
    ensures
        pos <= digit_end(s, pos) <= s.len(),
    decreases s.len() - pos,
{
    if pos < s.len() && is_digit(s[pos]) {
        lemma_digit_end_bounds(s, pos + 1);
    }
}

proof fn lemma_date_fields_end(s: Seq<u8>, pos: int, k: nat)
    requires
        0 <= pos <= s.len(),
        k > 0,
    ensures
        date_fields_from(s, pos, k) matches Some((_, e)) ==> pos < e <= s.len(),
    decreases k,
{
    lemma_digit_end_bounds(s, pos);
    if let Some((v, e)) = digits_at(s, pos) {
        if k > 1 && e < s.len() && s[e] == 46u8 {
            lemma_date_fields_end(s, e + 1, (k - 1) as nat);
        }
    }
}

/// What a parsed `,v` file holds.
pub struct FileView {
    pub admin: AdminView,
    pub delta: Seq<((bool, Seq<u64>), DeltaView)>,
    pub desc: Seq<u8>,
    pub delta_text: Seq<((bool, Seq<u64>), Seq<u8>, Seq<u8>)>,
}

pub open spec fn deltas_view(v: Seq<(Num, Delta)>) -> Seq<((bool, Seq<u64>), DeltaView)> {
    v.map_values(|e: (Num, Delta)| (rev_view(e.0), delta_view(e.1)))
}

pub open spec fn texts_view(v: Seq<(Num, DeltaText)>) -> Seq<((bool, Seq<u64>), Seq<u8>, Seq<u8>)> {
    v.map_values(|e: (Num, DeltaText)| (rev_view(e.0), e.1.log@, e.1.text@))
}

pub open spec fn file_view(f: File) -> FileView {
    FileView {
        admin: admin_view(f.admin),
        delta: deltas_view(f.delta@),
        desc: f.desc@,
        delta_text: texts_view(f.delta_text@),
    }
}

pub open spec fn starts_digit(s: Seq<u8>, p: int) -> bool {
    0 <= p < s.len() && is_digit(s[p])
}

/// The delta records from `p` on, each followed by whitespace, up to the
/// first byte that is not a digit.
pub open spec fn deltas_from(s: Seq<u8>, p: int) -> Option<(Seq<((bool, Seq<u64>), DeltaView)>, int)>
    decreases s.len() - p,
{
    if !starts_digit(s, p) {
        Some((Seq::empty(), p))
    } else {
        match delta_spec(s, p) {
            Err(_) => None,
            Ok((n, d, e)) => {
                let p2 = space_end(s, e);
                if p2 <= p || p2 > s.len() {
                    None
                } else {
                    match deltas_from(s, p2) {
                        None => None,
                        Some((rest, e2)) => Some((seq![(n, d)] + rest, e2)),
                    }
                }
            },
        }
    }
}

/// The delta texts from `p` on, each followed by whitespace, up to the
/// first byte that is not a digit.
pub open spec fn texts_from(s: Seq<u8>, p: int) -> Option<(Seq<((bool, Seq<u64>), Seq<u8>, Seq<u8>)>, int)>
    decreases s.len() - p,
{
    if !starts_digit(s, p) {
        Some((Seq::empty(), p))
    } else {
        match delta_text_spec(s, p) {
            None => None,
            Some((n, log, text, e)) => {
                let p2 = space_end(s, e);
                if p2 <= p || p2 > s.len() {
                    None
                } else {
                    match texts_from(s, p2) {
                        None => None,
                        Some((rest, e2)) => Some((seq![(n, log, text)] + rest, e2)),
                    }
                }
            },
        }
    }
}

/// What a whole `,v` file reads as: the admin block, the deltas, the
/// description and the delta texts, with whitespace between them and
/// nothing after; `None` where the bytes do not follow that grammar.
pub open spec fn file_spec(s: Seq<u8>) -> Option<FileView> {
    match admin_spec(s, 0) {
        Err(_) => None,
        Ok((a, e)) => match deltas_from(s, space_end(s, e)) {
            None => None,
            Some((ds, p2)) => match desc_spec(s, p2) {
                None => None,
                Some((d, e3)) => match texts_from(s, space_end(s, e3)) {
                    None => None,
                    Some((ts, p4)) => if p4 == s.len() {
                        Some(FileView { admin: a, delta: ds, desc: d, delta_text: ts })
                    } else {
                        None
                    },
                },
            },
        },
    }
}

/// Parses a whole `,v` file: the admin block, the deltas, the description
/// and the delta texts, with whitespace between them and nothing after.
pub fn parse(input: &[u8]) -> (r: Result<File, ParseError>)
    ensures
        r matches Err(e) ==> e.location <= input@.len(),
        match file_spec(input@) {
            Some(v) => r matches Ok(f) && file_view(f) == v,
            None => r is Err,
        },
{
    let (admin, e) = match admin(input, 0) {
        Ok(x) => x,
        Err(err) => {
            return Err(clamp(err, input));
        },
    };
    let mut p = skip_ws(input, e);
    let ghost p1 = p;
    let mut deltas: Vec<(Num, Delta)> = Vec::new();
    while p < input.len() && 48 <= input[p] && input[p] <= 57
        invariant
            p1 <= p <= input@.len(),
            admin_spec(input@, 0) matches Ok((av, ae)) && av == admin_view(admin) && p1 == space_end(input@, ae),
            deltas_from(input@, p1 as int) == match deltas_from(input@, p as int) {
                None => None,
                Some((rest, e2)) => Some((deltas_view(deltas@) + rest, e2)),
            },
        decreases input@.len() - p,
    {
        let (n, d, e) = match delta(input, p) {
            Ok(x) => x,
            Err(err) => {
                return Err(clamp(err, input));
            },
        };
        let ghost d0 = deltas@;
        let ghost entry = (rev_view(n), delta_view(d));
        deltas.push((n, d));
        let p2 = skip_ws(input, e);
        proof {
            assert(deltas_view(deltas@) =~= deltas_view(d0).push(entry));
            if let Some((rest, e2)) = deltas_from(input@, p2 as int) {
                assert(deltas_view(d0) + (seq![entry] + rest) =~= deltas_view(deltas@) + rest);
            }
        }
        p = p2;
    }
    assert(deltas_view(deltas@) + Seq::empty() =~= deltas_view(deltas@));
    let p_desc = p;
    let (desc_v, e) = match desc(input, p) {
        Ok(x) => x,
        Err(err) => {
            return Err(clamp(err, input));
        },
    };
    proof {
        lemma_scan_string_bounds(input@, space_end(input@, p + "desc".spec_bytes().len()) + 1);
    }
    let e3 = e;
    let mut p = skip_ws(input, e);
    let ghost p3 = p;
    let ghost ghost_p1 = p1;
    assert(desc_spec(input@, p_desc as int) == Some((desc_v@, e3 as int)));
    let mut texts: Vec<(Num, DeltaText)> = Vec::new();
    while p < input.len() && 48 <= input[p] && input[p] <= 57
        invariant
            p3 <= p <= input@.len(),
            admin_spec(input@, 0) matches Ok((av, ae)) && av == admin_view(admin) && ghost_p1 == space_end(input@, ae),
            deltas_from(input@, ghost_p1 as int) == Some((deltas_view(deltas@), p_desc as int)),
            desc_spec(input@, p_desc as int) == Some((desc_v@, e3 as int)),
            p3 == space_end(input@, e3 as int),
            texts_from(input@, p3 as int) == match texts_from(input@, p as int) {
                None => None,
                Some((rest, e2)) => Some((texts_view(texts@) + rest, e2)),
            },
        decreases input@.len() - p,
    {
        let (n, t, e) = match delta_text(input, p) {
            Ok(x) => x,
            Err(err) => {
                return Err(clamp(err, input));
            },
        };
        let ghost t0 = texts@;
        let ghost entry = (rev_view(n), t.log@, t.text@);
        texts.push((n, t));
        let p2 = skip_ws(input, e);
        proof {
            assert(texts_view(texts@) =~= texts_view(t0).push(entry));
            if let Some((rest, e2)) = texts_from(input@, p2 as int) {
                assert(texts_view(t0) + (seq![entry] + rest) =~= texts_view(texts@) + rest);
            }
        }
        p = p2;
    }
    assert(texts_view(texts@) + Seq::empty() =~= texts_view(texts@));
    if p != input.len() {
        return Err(ParseError { location: p, kind: ParseErrorKind::Syntax });
    }
    Ok(File { admin, delta: deltas, desc: desc_v, delta_text: texts })
}

/// The error, with its location kept within the input.
fn clamp(e: ParseError, input: &[u8]) -> (r: ParseError)
    ensures
        r.kind == e.kind,
        r.location <= input@.len(),
        e.location <= input@.len() ==> r == e,
{
    if e.location > input.len() {
        ParseError { location: input.len(), kind: e.kind }
    } else {
        e
    }
}

} // verus!
