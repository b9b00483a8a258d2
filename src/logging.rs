//! Verbosity of the log: the count of `-v` and `-q` flags mapped to a level
//! filter, and the writer that routes log lines around progress bars.

use vstd::prelude::*;

verus! {

/// The most severe level that is still logged, or nothing at all.
#[derive(Clone, Copy, Debug, PartialEq, Eq, Structural)]
pub enum LogFilter {
    Off,
    Error,
    Warn,
    Info,
    Debug,
    Trace,
}

/// The filter for a verbosity: negative turns logging off, 0 keeps errors
/// only, and each step up admits the next level, up to trace from 4 on.
pub open spec fn filter_for(verbosity: int) -> LogFilter {
    if verbosity < 0 {
        LogFilter::Off
    } else if verbosity == 0 {
        LogFilter::Error
    } else if verbosity == 1 {
        LogFilter::Warn
    } else if verbosity == 2 {
        LogFilter::Info
    } else if verbosity == 3 {
        LogFilter::Debug
    } else {
        LogFilter::Trace
    }
}

/// The filter for a verbosity.
pub fn level_filter_from_number(verbosity: i8) -> (r: LogFilter)
    ensures
        r == filter_for(verbosity as int),
{
    if verbosity < 0 {
        LogFilter::Off
    } else if verbosity == 0 {
        LogFilter::Error
    } else if verbosity == 1 {
        LogFilter::Warn
    } else if verbosity == 2 {
        LogFilter::Info
    } else if verbosity == 3 {
        LogFilter::Debug
    } else {
        LogFilter::Trace
    }
}

/// The verbosity for `verbose` and `quiet` flag counts: warnings by
/// default, one step per flag, kept within `i8`.
pub fn verbosity_from_counts(verbose: u8, quiet: u8) -> (r: i8)
    ensures
        r as int == if 1 + verbose - quiet > i8::MAX {
            i8::MAX as int
        } else if 1 + verbose - quiet < i8::MIN {
            i8::MIN as int
        } else {
            1 + verbose - quiet
        },
{
    let v: i16 = 1 + verbose as i16 - quiet as i16;
    if v > i8::MAX as i16 {
        i8::MAX
    } else if v < i8::MIN as i16 {
        i8::MIN
    } else {
        v as i8
    }
}

/// A log writer that suspends the progress display around each write.
pub struct WriterWrapper<S, W> {
    pub suspender: S,
    pub inner: W,
}

impl<S, W> WriterWrapper<S, W> {
    pub fn new(suspender: S, inner: W) -> (r: WriterWrapper<S, W>)
        ensures
            r.suspender == suspender,
            r.inner == inner,
    {
        WriterWrapper { suspender, inner }
    }
}

} // verus!
