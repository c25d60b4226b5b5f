//! Decoding of raw log lines.
//!
//! A line holds a timestamp, a separator, a query and a line feed. The query
//! may hold `\xHH` escapes, which are decoded.

pub mod hex;

use vstd::prelude::*;
use vstd::slice::slice_subrange;

use crate::ascii::{CARRIAGE_RETURN, LINE_FEED};
use crate::feature_extraction::counting::{first_index, lemma_first_index};
use crate::parse_log::hex::{decode_byte_escapes, decoded, to_owned};

verus! {

/// Why a line was filtered out.
#[derive(Debug, Clone, Copy, PartialEq, Eq)]
pub enum ParseLineError {
    /// The line holds no separator.
    SepNotFound,
    /// The timestamp is no finite number.
    InvalidTimestamp,
    /// Nothing follows the separator, or the line does not end with a line
    /// feed.
    InvalidQuery,
}

/// What follows the separator at `at`, without the line feed at its end and
/// without a carriage return before that; `None` where it does not end with a
/// line feed.
pub open spec fn query_field(line: Seq<u8>, at: int) -> Option<Seq<u8>> {
    let rest = line.skip(at + 1);
    if rest.len() == 0 || rest.last() != LINE_FEED {
        None
    } else if rest.len() >= 2 && rest[rest.len() - 2] == CARRIAGE_RETURN {
        Some(rest.take(rest.len() - 2))
    } else {
        Some(rest.take(rest.len() - 1))
    }
}

/// The two fields of `line`: the bytes in front of the first `sep`, and the
/// query behind it, decoded.
pub open spec fn fields(line: Seq<u8>, sep: u8) -> Result<(Seq<u8>, Seq<u8>), ParseLineError> {
    let at = first_index(line, sep);
    if at >= line.len() {
        Err(ParseLineError::SepNotFound)
    } else {
        match query_field(line, at) {
            None => Err(ParseLineError::InvalidQuery),
            Some(query) => Ok((line.take(at), decoded(query))),
        }
    }
}

/// Whether `r` is `outcome`: the same error, or the same two fields.
pub open spec fn is_fields(
    r: Result<(Vec<u8>, Vec<u8>), ParseLineError>,
    outcome: Result<(Seq<u8>, Seq<u8>), ParseLineError>,
) -> bool {
    match (r, outcome) {
        (Ok((ts, query)), Ok((ts_field, decoded_query))) => ts@ == ts_field && query@
            == decoded_query,
        (Err(e), Err(f)) => e == f,
        _ => false,
    }
}

/// The index of the first `sep` in `line`; the length of `line` where there
/// is none.
fn position(line: &[u8], sep: u8) -> (at: usize)
    ensures
        at == first_index(line@, sep),
        at <= line@.len(),
{
    let mut i: usize = 0;
    proof {
        assert(line@.skip(0) =~= line@);
    }
    while i < line.len()
        invariant
            i <= line.len(),
            first_index(line@, sep) == i + first_index(line@.skip(i as int), sep),
        decreases line.len() - i,
    {
        assert(line@.skip(i as int).first() == line@[i as int]);
        if line[i] == sep {
            return i;
        }
        proof {
            assert(line@.skip(i as int).drop_first() =~= line@.skip(i + 1));
        }
        i += 1;
    }
    i
}

/// Splits `line` at the first `sep` into the timestamp, as it is written,
/// and the query, with its line end taken off and its escapes decoded.
pub fn parse_log_line(line: &[u8], sep: u8) -> (r: Result<(Vec<u8>, Vec<u8>), ParseLineError>)
    ensures
        is_fields(r, fields(line@, sep)),
{
    let at: usize = position(line, sep);
    if at >= line.len() {
        return Err(ParseLineError::SepNotFound);
    }
    let n: usize = line.len();
    if n - at < 2 || line[n - 1] != LINE_FEED {
        proof {
            let rest = line@.skip(at + 1);
            if rest.len() > 0 {
                assert(rest.last() == line@[n - 1]);
            }
        }
        return Err(ParseLineError::InvalidQuery);
    }
    let ghost rest = line@.skip(at + 1);
    assert(rest.last() == line@[n - 1]);
    let mut end: usize = n - 1;
    if end > at + 1 && line[end - 1] == CARRIAGE_RETURN {
        assert(rest[rest.len() - 2] == line@[n - 2]);
        end = end - 1;
    } else {
        proof {
            if rest.len() >= 2 {
                assert(rest[rest.len() - 2] == line@[n - 2]);
            }
        }
    }
    let ts_slice = slice_subrange(line, 0, at);
    let q_slice = slice_subrange(line, at + 1, end);
    proof {
        assert(q_slice@ =~= rest.take(end - at - 1));
        assert(ts_slice@ =~= line@.take(at as int));
    }
    match decode_byte_escapes(q_slice) {
        Some(query) => Ok((to_owned(ts_slice), query)),
        None => Err(ParseLineError::InvalidQuery),
    }
}

/// Puts the timestamp that was read from its field in the place of the
/// field: a line whose timestamp is no finite number is filtered out.
pub fn with_timestamp(fields: (Vec<u8>, Vec<u8>), ts: Option<i64>) -> (r: Result<
    (i64, Vec<u8>),
    ParseLineError,
>)
    ensures
        ts is None ==> r == Err::<(i64, Vec<u8>), _>(ParseLineError::InvalidTimestamp),
        ts matches Some(t) ==> r == Ok::<_, ParseLineError>((t, fields.1)),
{
    match ts {
        Some(t) => Ok((t, fields.1)),
        None => Err(ParseLineError::InvalidTimestamp),
    }
}

} // verus!
