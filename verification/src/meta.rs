//! What is kept of a note between two builds: its file name and the
//! instant at which it was first seen.

use crate::boundaries::{lemma_boundaries_around_ascii, slice, slice_of};
use crate::error::JustTextError;
use crate::runs::lemma_run_len;
use crate::text::{find, first_index, other_than};
use chrono::{DateTime, Utc};
use vstd::prelude::*;
use vstd::string::StringExecFns;
use vstd::utf8::{encode_utf8, encode_utf8_valid_utf8, is_char_boundary_start_end_of_seq};

verus! {

/// The byte of the space.
pub const SPACE: u8 = 0x20;

/// Whether `DateTime::from_timestamp` makes an instant of `secs` seconds
/// since the start of 1970 and `nanos` nanoseconds more.
pub uninterp spec fn representable(secs: i64, nanos: u32) -> bool;

/// The seconds and nanoseconds of the instant that `text` is parsed to as a
/// `DateTime<Utc>`, or `None` where it is not parsed.
pub uninterp spec fn timestamp_of(text: Seq<char>) -> Option<(i64, u32)>;

/// What `DateTime::to_rfc3339` writes for the instant of `secs` and
/// `nanos`.
pub uninterp spec fn rfc3339_of(secs: i64, nanos: u32) -> Seq<char>;

/// What `DateTime::format` writes for the instant of `secs` and `nanos`
/// under `pattern`, or `None` where `pattern` cannot be written out.
pub uninterp spec fn formatted_of(secs: i64, nanos: u32, pattern: Seq<char>) -> Option<Seq<char>>;

/// `chrono::ParseError`: why a text was not parsed to an instant. Nothing
/// is known of what it holds.
#[verifier::external_type_specification]
#[verifier::external_body]
pub struct ExParseError(chrono::ParseError);

/// An instant: seconds since the start of 1970 in UTC and nanoseconds
/// since the last whole second. Every value is an instant that
/// `DateTime<Utc>` can hold.
#[derive(Debug, Clone, Copy, PartialEq, Eq)]
pub struct Timestamp {
    secs: i64,
    nanos: u32,
}

impl View for Timestamp {
    type V = (i64, u32);

    closed spec fn view(&self) -> (i64, u32) {
        (self.secs, self.nanos)
    }
}

/// Whether the instant `a` is not later than the instant `b`.
pub open spec fn not_later(a: (i64, u32), b: (i64, u32)) -> bool {
    a.0 < b.0 || (a.0 == b.0 && a.1 <= b.1)
}

/// `DateTime::from_timestamp`, which makes an instant or refuses the two
/// numbers. The contract names the cases in which it makes one.
#[verifier::external_body]
fn checked_instant(secs: i64, nanos: u32) -> (held: bool)
    ensures
        held == representable(secs, nanos),
{
    DateTime::from_timestamp(secs, nanos).is_some()
}

/// `Utc::now`, and `DateTime::timestamp` and
/// `DateTime::timestamp_subsec_nanos` on what it gives: the seconds and
/// nanoseconds of the instant at which it is called. Of the two numbers
/// the contract says only that they make an instant again, which is what
/// chrono documents of them. chrono stops the program where the clock of
/// the machine stands before 1970.
#[verifier::external_body]
fn current_instant() -> (parts: (i64, u32))
    ensures
        representable(parts.0, parts.1),
{
    let now = Utc::now();
    (now.timestamp(), now.timestamp_subsec_nanos())
}

/// `str::parse` to a `DateTime<Utc>`, and `DateTime::timestamp` and
/// `DateTime::timestamp_subsec_nanos` on what was parsed. The contract
/// names the two numbers; that they make an instant again is what chrono
/// documents of them.
#[verifier::external_body]
fn parse_instant(text: &str) -> (parsed: Result<(i64, u32), chrono::ParseError>)
    ensures
        match timestamp_of(text@) {
            Some(parts) => parsed == Ok::<(i64, u32), chrono::ParseError>(parts) && representable(
                parts.0,
                parts.1,
            ),
            None => parsed is Err,
        },
{
    text.parse::<DateTime<Utc>>().map(|date| (date.timestamp(), date.timestamp_subsec_nanos()))
}

/// The text of a `chrono::ParseError`.
#[verifier::external_body]
fn parse_error_text(error: &chrono::ParseError) -> String {
    error.to_string()
}

/// `DateTime::to_rfc3339` on the instant that `DateTime::from_timestamp`
/// makes of `secs` and `nanos`; `None` where it makes none.
#[verifier::external_body]
fn rfc3339(secs: i64, nanos: u32) -> (text: Option<String>)
    ensures
        text is Some <==> representable(secs, nanos),
        text matches Some(written) ==> written@ == rfc3339_of(secs, nanos),
{
    DateTime::from_timestamp(secs, nanos).map(|date| date.to_rfc3339())
}

/// `DateTime::format` with `pattern` on the instant that
/// `DateTime::from_timestamp` makes of `secs` and `nanos`, written to a
/// string; `None` where no instant is made or `pattern` cannot be written
/// out.
#[verifier::external_body]
fn formatted(secs: i64, nanos: u32, pattern: &str) -> (text: Option<String>)
    ensures
        text is Some <==> (representable(secs, nanos) && formatted_of(secs, nanos, pattern@)
            is Some),
        text matches Some(written) ==> formatted_of(secs, nanos, pattern@) == Some(written@),
{
    let date = DateTime::from_timestamp(secs, nanos)?;
    let mut text = String::new();
    date.format(pattern).write_to(&mut text).ok()?;
    Some(text)
}

impl Timestamp {
    #[verifier::type_invariant]
    spec fn is_instant(&self) -> bool {
        representable(self.secs, self.nanos)
    }

    /// The instant of `secs` seconds since the start of 1970 and `nanos`
    /// nanoseconds more, where there is one.
    pub fn new(secs: i64, nanos: u32) -> (made: Option<Timestamp>)
        ensures
            made is Some <==> representable(secs, nanos),
            made matches Some(timestamp) ==> timestamp@ == (secs, nanos),
    {
        if checked_instant(secs, nanos) {
            Some(Timestamp { secs, nanos })
        } else {
            None
        }
    }

    /// The instant at which it is called, as the clock of the machine
    /// tells it. Which instant that is the clock decides; whatever it
    /// tells, the seconds and nanoseconds of the result make an instant, so
    /// that `new` gives the same timestamp for them.
    pub fn now() -> (now: Timestamp)
        ensures
            representable(now@.0, now@.1),
    {
        let parts = current_instant();
        Timestamp { secs: parts.0, nanos: parts.1 }
    }

    /// The instant that `text` gives in the form of RFC 3339.
    pub fn parse(text: &str) -> (result: Result<Timestamp, JustTextError<'static>>)
        ensures
            match timestamp_of(text@) {
                Some(parts) => result matches Ok(timestamp) && timestamp@ == parts,
                None => result is Err,
            },
    {
        match parse_instant(text) {
            Ok(parts) => Ok(Timestamp { secs: parts.0, nanos: parts.1 }),
            Err(error) => Err(JustTextError::from_string(parse_error_text(&error))),
        }
    }

    /// Whole seconds since the start of 1970.
    pub fn secs(&self) -> (secs: i64)
        ensures
            secs == self@.0,
            representable(self@.0, self@.1),
    {
        proof {
            use_type_invariant(self);
        }
        self.secs
    }

    /// Nanoseconds since the last whole second.
    pub fn nanos(&self) -> (nanos: u32)
        ensures
            nanos == self@.1,
    {
        self.nanos
    }

    /// Whether this instant is not later than `other`.
    pub fn not_later_than(&self, other: &Timestamp) -> (earlier: bool)
        ensures
            earlier == not_later(self@, other@),
    {
        self.secs < other.secs || (self.secs == other.secs && self.nanos <= other.nanos)
    }

    /// This instant in the form of RFC 3339.
    pub fn to_rfc3339(&self) -> (text: String)
        ensures
            text@ == rfc3339_of(self@.0, self@.1),
    {
        proof {
            use_type_invariant(self);
        }
        rfc3339(self.secs, self.nanos).unwrap()
    }

    /// This instant written out under `pattern`, or `None` where `pattern`
    /// cannot be written out.
    pub fn format(&self, pattern: &str) -> (text: Option<String>)
        ensures
            match formatted_of(self@.0, self@.1, pattern@) {
                Some(written) => text matches Some(made) && made@ == written,
                None => text is None,
            },
    {
        proof {
            use_type_invariant(self);
        }
        formatted(self.secs, self.nanos, pattern)
    }
}

/// A note as the metadata file knows it.
#[derive(Debug, Clone, PartialEq)]
pub struct Metadatum {
    pub filename: String,
    pub created: Timestamp,
}

/// Whether exactly one byte of `bytes` is a space.
pub open spec fn has_two_parts(bytes: Seq<u8>) -> bool {
    let space = first_index(bytes, SPACE) as int;
    &&& space < bytes.len()
    &&& first_index(bytes.subrange(space + 1, bytes.len() as int), SPACE) == bytes.len() - space
        - 1
}

/// The text before the first space of `bytes`.
pub open spec fn first_part(bytes: Seq<u8>) -> Seq<char> {
    slice_of(bytes, (0, first_index(bytes, SPACE) as usize))
}

/// The text after the first space of `bytes`.
pub open spec fn second_part(bytes: Seq<u8>) -> Seq<char> {
    slice_of(bytes, ((first_index(bytes, SPACE) + 1) as usize, bytes.len() as usize))
}

/// The message for a line that is not a file name, one space and an
/// instant.
pub open spec fn malformed_metadatum_message() -> Seq<char> {
    "malformed metadatum"@
}

/// What a line of the metadata file says: the file name and the seconds
/// and nanoseconds of the instant, or `None` where the line is malformed
/// or its instant is not parsed.
pub open spec fn metadatum_of(line: Seq<char>) -> Option<(Seq<char>, (i64, u32))> {
    let bytes = encode_utf8(line);
    if has_two_parts(bytes) {
        match timestamp_of(second_part(bytes)) {
            Some(stamp) => Some((first_part(bytes), stamp)),
            None => None,
        }
    } else {
        None
    }
}

impl Metadatum {
    /// Reads a line of the metadata file: a file name, one space and an
    /// instant in the form of RFC 3339. A line with no space or with more
    /// than one is malformed.
    pub fn from_str(s: &str) -> (result: Result<Metadatum, JustTextError<'static>>)
        ensures
            match metadatum_of(s@) {
                Some((filename, stamp)) => result matches Ok(metadatum) && metadatum.filename@
                    == filename && metadatum.created@ == stamp,
                None => result is Err,
            },
            match result {
                Ok(metadatum) => {
                    &&& has_two_parts(encode_utf8(s@))
                    &&& metadatum.filename@ == first_part(encode_utf8(s@))
                    &&& timestamp_of(second_part(encode_utf8(s@))) == Some(metadatum.created@)
                },
                Err(error) => if has_two_parts(encode_utf8(s@)) {
                    timestamp_of(second_part(encode_utf8(s@))) is None
                } else {
                    error@ == malformed_metadatum_message()
                },
            },
    {
        let ghost bytes = encode_utf8(s@);
        let len = s.as_bytes().len();
        proof {
            encode_utf8_valid_utf8(s@);
            is_char_boundary_start_end_of_seq(bytes);
            lemma_run_len(bytes, 0, other_than(SPACE));
        }
        let space = match find(s, SPACE) {
            Some(space) => space,
            None => {
                return Err(JustTextError::new("malformed metadatum"));
            },
        };
        proof {
            lemma_boundaries_around_ascii(bytes, space as int);
        }
        let name = slice(s, (0, space));
        let rest = slice(s, (space + 1, len));
        proof {
            lemma_run_len(encode_utf8(rest@), 0, other_than(SPACE));
        }
        if find(rest, SPACE).is_some() {
            return Err(JustTextError::new("malformed metadatum"));
        }
        match Timestamp::parse(rest) {
            Ok(created) => Ok(Metadatum { filename: name.to_owned(), created }),
            Err(error) => Err(error),
        }
    }

    /// The line of the metadata file for this note: the file name, a space
    /// and the instant in the form of RFC 3339.
    pub fn to_string(&self) -> (line: String)
        ensures
            line@ == self.filename@ + " "@ + rfc3339_of(self.created@.0, self.created@.1),
    {
        let mut line = self.filename.clone();
        line.append(" ");
        line.append(self.created.to_rfc3339().as_str());
        line
    }
}

} // verus!
