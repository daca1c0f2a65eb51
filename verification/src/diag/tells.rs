//! What the diagnostics answer.

use vstd::prelude::*;
use crate::metrics::QueryTrace;
use crate::text::{clipped, text_width};
use super::logfmt::{level_tag, severity_of, Level, LogfmtVisitor};
use super::{chained, error_chain, log_query_served, Severity};

verus! {

/// Errors and warnings are recorded, each as what it is, and as a panic where
/// one was told of; nothing below is.
pub proof fn lemma_severity_answered(level: Level, target: &str, r: Option<Severity>)
    requires
        call_ensures(severity_of, (level, target), r),
    ensures
        r is Some <==> level == Level::Error || level == Level::Warn,
        r == Some(Severity::Panic) <==> (level == Level::Error || level == Level::Warn)
            && target@ == "panic"@,
        level == Level::Error && target@ != "panic"@ ==> r == Some(Severity::Error),
        level == Level::Warn && target@ != "panic"@ ==> r == Some(Severity::Warn),
{
}

/// The worse a severity, the greater its number.
pub proof fn lemma_severity_numbers(warn: u64, error: u64, panic_number: u64)
    requires
        call_ensures(Severity::as_u64, (Severity::Warn,), warn),
        call_ensures(Severity::as_u64, (Severity::Error,), error),
        call_ensures(Severity::as_u64, (Severity::Panic,), panic_number),
    ensures
        warn == 1,
        warn < error < panic_number,
        panic_number == 3,
{
}

/// A tag is five characters wide.
pub proof fn lemma_tag_answered(level: Level, r: &'static str)
    requires
        call_ensures(level_tag, (level,), r),
    ensures
        r@.len() == 5,
{
    super::reading::lemma_tags_apart(level, level);
}

/// A query is logged exactly where its result was not there already, under its
/// own words.
pub proof fn lemma_served_answered(rid: u64, trace: &QueryTrace, r: Option<LogfmtVisitor>)
    requires
        call_ensures(log_query_served, (rid, trace), r),
    ensures
        r is None <==> trace.unchanged,
        r matches Some(line) ==> (line.area matches Some(area) && area@ == "query"@),
        r matches Some(line) ==> (line.message matches Some(message) && message@
            == "query served"@),
{
}

/// A chain that fits 4096 bytes is given whole, and any other is cut to what
/// fits with an ellipsis behind it.
pub proof fn lemma_chain_answered(causes: &[String], r: String)
    requires
        call_ensures(error_chain, (causes,), r),
    ensures
        text_width(r@) <= 4096,
        text_width(chained(causes@)) <= 4096 ==> r@ == chained(causes@),
        text_width(chained(causes@)) > 4096 ==> r@ == clipped(chained(causes@), 4093).push(
            '\u{2026}',
        ),
{
}

} // verus!
