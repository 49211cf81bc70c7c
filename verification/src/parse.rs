//! Parsing of one log line: `<RFC 3339 timestamp><single space><payload>`.
//!
//! The timestamp text is handed to chrono and the payload text to
//! serde_json; both calls are deterministic functions of their argument,
//! so their results are named by uninterpreted spec functions and the
//! rest of the parser is verified against those names.

use vstd::prelude::*;

use crate::item::{Item, ItemModel};

verus! {

/// The instant, in UTC epoch milliseconds, that RFC 3339 text denotes,
/// or `None` where the text is not a valid RFC 3339 date-and-time.
/// Named, not defined: chrono computes it.
pub uninterp spec fn rfc3339_millis(s: Seq<char>) -> Option<i64>;

/// Whether serde_json accepts the text as one serialized JSON value.
/// Named, not defined: serde_json decides it.
pub uninterp spec fn json_accepted(s: Seq<char>) -> bool;

/// Relies on chrono's `DateTime::parse_from_rfc3339` and
/// `timestamp_millis`: the parsed instant depends on the text alone.
#[verifier::external_body]
fn parse_timestamp(s: &str) -> (r: Option<i64>)
    ensures
        r == rfc3339_millis(s@),
{
    chrono::DateTime::parse_from_rfc3339(s).ok().map(|d| d.timestamp_millis())
}

/// Relies on serde_json's `from_str` for `RawValue`: whether the payload
/// text is one well-formed JSON value depends on the text alone.
#[verifier::external_body]
fn payload_accepted(s: &str) -> (r: bool)
    ensures
        r == json_accepted(s@),
{
    serde_json::from_str::<&serde_json::value::RawValue>(s).is_ok()
}

/// Index of the first space in `s`, if any.
pub open spec fn first_space(s: Seq<char>) -> Option<int>
    decreases s.len(),
{
    if s.len() == 0 {
        None
    } else if s[0] == ' ' {
        Some(0int)
    } else {
        match first_space(s.drop_first()) {
            None => None,
            Some(i) => Some(i + 1),
        }
    }
}

proof fn lemma_first_space_at(s: Seq<char>, i: int)
    requires
        0 <= i < s.len(),
        s[i] == ' ',
        forall|j: int| 0 <= j < i ==> s[j] != ' ',
    ensures
        first_space(s) == Some(i),
    decreases i,
{
    if i > 0 {
        lemma_first_space_at(s.drop_first(), i - 1);
    }
}

proof fn lemma_first_space_none(s: Seq<char>)
    requires
        forall|j: int| 0 <= j < s.len() ==> s[j] != ' ',
    ensures
        first_space(s) is None,
    decreases s.len(),
{
    if s.len() > 0 {
        assert(forall|j: int| 0 <= j < s.drop_first().len() ==> s.drop_first()[j] != ' ');
        lemma_first_space_none(s.drop_first());
    }
}

/// How one malformed line failed to parse.
#[derive(Clone, Copy, Debug, PartialEq, Eq, Structural)]
pub enum ParseError {
    /// No space separates the timestamp from the payload.
    MissingSeparator,
    /// The text before the first space is not an RFC 3339 instant.
    BadTimestamp,
    /// The text after the first space is not one JSON value.
    BadPayload,
}

/// The item a log line denotes: the text before the first space read as
/// an RFC 3339 instant, the text after it kept verbatim as the payload;
/// `None` where the line is malformed.
pub open spec fn parse_line_spec(line: Seq<char>) -> Option<ItemModel> {
    match first_space(line) {
        None => None,
        Some(i) => match rfc3339_millis(line.take(i)) {
            None => None,
            Some(ts) => if json_accepted(line.skip(i + 1)) {
                Some(ItemModel { ts: ts as int, content: line.skip(i + 1) })
            } else {
                None
            },
        },
    }
}

/// Which failure a malformed line reports.
pub open spec fn parse_error_kind(line: Seq<char>) -> ParseError {
    match first_space(line) {
        None => ParseError::MissingSeparator,
        Some(i) => if rfc3339_millis(line.take(i)) is None {
            ParseError::BadTimestamp
        } else {
            ParseError::BadPayload
        },
    }
}

/// Parses one log line into an [`Item`], or reports exactly how it is
/// malformed.
pub fn parse_line(line: &str) -> (r: Result<Item, ParseError>)
    ensures
        match r {
            Ok(item) => parse_line_spec(line@) == Some(item@),
            Err(e) => parse_line_spec(line@) is None && e == parse_error_kind(line@),
        },
{
    let n = line.unicode_len();
    let mut i: usize = 0;
    while i < n && line.get_char(i) != ' '
        invariant
            n == line@.len(),
            0 <= i <= n,
            forall|j: int| 0 <= j < i ==> line@[j] != ' ',
        decreases n - i,
    {
        i += 1;
    }
    if i == n {
        proof {
            lemma_first_space_none(line@);
        }
        return Err(ParseError::MissingSeparator);
    }
    proof {
        lemma_first_space_at(line@, i as int);
        assert(line@.subrange(0, i as int) =~= line@.take(i as int));
        assert(line@.subrange(i as int + 1, n as int) =~= line@.skip(i as int + 1));
    }
    let ts_text = line.substring_char(0, i);
    let content = line.substring_char(i + 1, n);
    match parse_timestamp(ts_text) {
        None => Err(ParseError::BadTimestamp),
        Some(ts) => {
            if payload_accepted(content) {
                Ok(Item { ts, content: content.to_owned() })
            } else {
                Err(ParseError::BadPayload)
            }
        },
    }
}

} // verus!
