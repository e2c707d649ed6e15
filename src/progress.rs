//! When to report progress, and the percentage shown.

use vstd::prelude::*;

verus! {

/// A report is considered after every this many completed documents.
pub const REPORT_EVERY: u64 = 101;

/// Milliseconds that must pass between two reports, but for the last one.
pub const REPORT_INTERVAL_MS: u64 = 500;

/// Whether to print a progress line after the `count`-th of `total`
/// documents, `since_last_ms` milliseconds after the previous line: always
/// for the last document, otherwise on every `REPORT_EVERY`-th document once
/// more than `REPORT_INTERVAL_MS` have passed.
pub fn should_report(count: u64, total: u64, since_last_ms: u64) -> (r: bool)
    ensures
        r == (count == total || (count % REPORT_EVERY == 0 && since_last_ms > REPORT_INTERVAL_MS)),
{
    if count == total {
        return true;
    }
    count % REPORT_EVERY == 0 && since_last_ms > REPORT_INTERVAL_MS
}

/// The whole percentage of `total` that `count` is, rounded down.
pub fn percent(count: u64, total: u64) -> (r: u64)
    requires
        0 < total,
        count <= total,
    ensures
        r as int == (count as int * 100) / (total as int),
        r <= 100,
{
    let c = count as u128;
    let t = total as u128;
    let ghost ci = count as int;
    let ghost ti = total as int;
    proof {
        assert((ci * 100) / ti <= 100) by (nonlinear_arith)
            requires 0 <= ci <= ti, ti > 0;
        assert(ci * 100 <= u64::MAX as int * 100) by (nonlinear_arith)
            requires 0 <= ci <= u64::MAX as int;
    }
    ((c * 100) / t) as u64
}

} // verus!
