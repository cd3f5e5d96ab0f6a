//! The replies of the HTTP service.
use vstd::prelude::*;

use crate::display::Trace;

verus! {

/// How the task of a scan ended.
#[derive(Debug)]
pub enum ScanOutcome {
    Done(Vec<Trace>),
    /// The task broke off.
    Failed,
    /// The task did not end in time.
    TimedOut,
}

/// The body of a response.
#[derive(Debug)]
pub enum Body {
    Findings(Vec<Trace>),
    Error(String),
}

/// A response: its HTTP status code and its body.
#[derive(Debug)]
pub struct Response {
    pub status: u16,
    pub body: Body,
}

/// The seconds that a scan may take.
pub const SCAN_SECONDS: u64 = 3;

/// The response to a scan request: the findings with status 200, and otherwise a message
/// with the status that tells the server's fault from a timeout.
pub fn scan_response(outcome: ScanOutcome) -> (r: Response)
    ensures
        match outcome {
            ScanOutcome::Done(ts) => r.status == 200 && r.body == Body::Findings(ts),
            ScanOutcome::Failed => r.status == 500 && (r.body matches Body::Error(m) && m@
                == "scan task failed"@),
            ScanOutcome::TimedOut => r.status == 504 && (r.body matches Body::Error(m) && m@
                == "scan timed out"@),
        },
{
    match outcome {
        ScanOutcome::Done(ts) => Response { status: 200, body: Body::Findings(ts) },
        ScanOutcome::Failed => Response {
            status: 500,
            body: Body::Error("scan task failed".to_owned()),
        },
        ScanOutcome::TimedOut => Response {
            status: 504,
            body: Body::Error("scan timed out".to_owned()),
        },
    }
}

} // verus!
