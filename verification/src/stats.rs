//! Plain value types shared by the read layer.
use vstd::prelude::*;

verus! {

/// A time range in epoch milliseconds, both ends inclusive.
#[derive(Debug, Clone, Copy)]
pub struct Range {
    pub from: i64,
    pub to: i64,
}

impl Range {
    /// An open end becomes the widest bound: the epoch start, or the largest
    /// representable instant.
    pub fn new(from: Option<i64>, to: Option<i64>) -> (r: Self)
        ensures
            r.from == (match from {
                Some(f) => f,
                None => 0,
            }),
            r.to == (match to {
                Some(t) => t,
                None => i64::MAX,
            }),
    {
        Range {
            from: match from {
                Some(f) => f,
                None => 0,
            },
            to: match to {
                Some(t) => t,
                None => i64::MAX,
            },
        }
    }
}

#[derive(Debug, Clone, Default)]
pub struct TokenTotals {
    pub input: i64,
    pub output: i64,
    pub reasoning: i64,
    pub cache_read: i64,
    pub cache_write: i64,
}

#[derive(Debug, Clone, Default)]
pub struct HourlyCell {
    pub weekday: u8,
    pub hour: u8,
    pub count: i64,
}

} // verus!
