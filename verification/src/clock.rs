//! Points in time and the text they are written as.

use std::fmt::Write;

use vstd::prelude::*;

use crate::views;

verus! {

/// A point in time: seconds and nanoseconds since 1970-01-01 00:00 UTC, and the
/// offset in seconds east of UTC at which it is read.
#[derive(Debug, Clone, Copy, PartialEq, Eq, Structural)]
pub struct Moment {
    pub secs: i64,
    pub nanos: u32,
    pub offset: i32,
}

/// What [`moment_text`] returns.
pub uninterp spec fn chrono_text(secs: i64, nanos: u32, offset: i32, format: Seq<char>) -> Option<Seq<char>>;

/// `chrono::DateTime::format` on the point in time, read at its offset: the
/// text that the format gives, or nothing where the point lies outside the
/// calendar or the format is not one. The result depends on the point in time,
/// the offset and the format alone.
#[verifier::external_body]
pub(crate) fn moment_text(t: Moment, format: &str) -> (out: Option<String>)
    ensures
        views::opt(out) == chrono_text(t.secs, t.nanos, t.offset, format@),
{
    let utc = chrono::DateTime::from_timestamp(t.secs, t.nanos)?;
    let zone = chrono::FixedOffset::east_opt(t.offset)?;
    let mut out = String::new();
    match write!(out, "{}", utc.with_timezone(&zone).format(format)) {
        Ok(()) => Some(out),
        Err(_) => None,
    }
}

} // verus!
