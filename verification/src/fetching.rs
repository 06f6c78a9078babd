//! The decisions around a quote fetch: which url to request and whether it goes through a
//! relay, how many requests a relay may have in flight, when a failed attempt is retried,
//! and which answers count as a failure. The waiting and the requests themselves are the
//! caller's.
use vstd::prelude::*;
use crate::chart::QuoteError;
use crate::proxy::{proxied, routed};
use crate::symbols::{chart_url, chart_url_of};
use crate::text::{extend_chars, push_decimal, string_of, decimal};

verus! {

/// How many quote fetches may be in flight at once while a proxy is in use.
pub const PROXY_MAX_IN_FLIGHT: usize = 2;

/// How long a fetch waiting for a relay slot sleeps before it looks again, in milliseconds.
pub const GATE_POLL_MS: u32 = 150;

/// How many times a request through a relay is tried.
pub const RELAY_ATTEMPTS: u32 = 5;

/// What a fetch waiting for a relay slot does next.
#[derive(Clone, Copy, PartialEq, Eq, Debug, Structural)]
pub enum GateStep {
    /// A reload was asked for since the request started: give up, holding no slot.
    Abandon,
    /// A slot is free: take it, leaving this many in flight.
    Acquire(usize),
    /// Every slot is taken: sleep [`GATE_POLL_MS`] and look again.
    Wait,
}

/// What a waiting fetch does with `in_flight` requests running: abandon when superseded,
/// else take a free slot, else wait.
pub open spec fn gate_next(in_flight: usize, superseded: bool) -> GateStep {
    if superseded {
        GateStep::Abandon
    } else if in_flight < PROXY_MAX_IN_FLIGHT {
        GateStep::Acquire((in_flight + 1) as usize)
    } else {
        GateStep::Wait
    }
}

/// One look at the relay gate with `in_flight` requests running.
pub fn gate_step(in_flight: usize, superseded: bool) -> (r: GateStep)
    ensures
        r == gate_next(in_flight, superseded),
{
    if superseded {
        GateStep::Abandon
    } else if in_flight < PROXY_MAX_IN_FLIGHT {
        GateStep::Acquire(in_flight + 1)
    } else {
        GateStep::Wait
    }
}

/// The count of requests in flight once one gives its slot back.
pub fn release_slot(in_flight: usize) -> (r: usize)
    ensures
        r == if in_flight > 0 {
            in_flight - 1
        } else {
            0
        },
{
    in_flight.saturating_sub(1)
}

/// Starting from a gate within its limit, taking a slot never puts more than
/// [`PROXY_MAX_IN_FLIGHT`] requests through a relay at once.
pub proof fn lemma_gate_bounded(in_flight: usize, superseded: bool)
    requires
        in_flight <= PROXY_MAX_IN_FLIGHT,
    ensures
        gate_next(in_flight, superseded) matches GateStep::Acquire(n) ==> n <= PROXY_MAX_IN_FLIGHT,
{
}

/// What a request through a relay does after attempt `attempt` (counted from zero) failed.
#[derive(Clone, Copy, PartialEq, Eq, Debug, Structural)]
pub enum RetryStep {
    /// A reload superseded this request: stop, and give the slot back now.
    Superseded,
    /// Sleep this many milliseconds and try again.
    Retry(u32),
    /// Every attempt is spent: fail with the last error.
    Exhausted,
}

/// The step after a failed attempt: a superseded request stops; otherwise the first four
/// failures are retried after `600 * (attempt + 1)` milliseconds, and the fifth is final.
pub fn after_failure(attempt: u32, superseded: bool) -> (r: RetryStep)
    requires
        attempt < RELAY_ATTEMPTS,
    ensures
        superseded ==> r == RetryStep::Superseded,
        !superseded && attempt + 1 < RELAY_ATTEMPTS ==> r == RetryStep::Retry((600 * (attempt + 1)) as u32),
        !superseded && attempt + 1 >= RELAY_ATTEMPTS ==> r == RetryStep::Exhausted,
{
    if superseded {
        RetryStep::Superseded
    } else if attempt + 1 < RELAY_ATTEMPTS {
        RetryStep::Retry(600 * (attempt + 1))
    } else {
        RetryStep::Exhausted
    }
}

/// The request timeout in seconds: a relay adds a hop and answers slowly, so it gets longer.
pub fn timeout_secs(via_proxy: bool) -> (r: u64)
    ensures
        r == if via_proxy {
            25u64
        } else {
            15u64
        },
{
    if via_proxy {
        25
    } else {
        15
    }
}

/// The request for one symbol's chart.
#[derive(Debug)]
pub struct ChartRequest {
    /// Yahoo's own url for the chart.
    pub url: String,
    /// Where the request actually goes.
    pub route: String,
    /// Does it go through a relay, which limits the requests in flight and retries?
    pub via_proxy: bool,
}

/// The request for `symbol`'s chart through the proxy `template`.
pub fn plan_request(template: &str, symbol: &str) -> (r: ChartRequest)
    ensures
        r.url@ == chart_url_of(symbol@),
        r.route@ == routed(template@, chart_url_of(symbol@)),
        r.via_proxy == (r.route@ != r.url@),
{
    let url = chart_url(symbol);
    let route = proxied(template, url.as_str());
    let via_proxy = route != url;
    ChartRequest { url, route, via_proxy }
}

/// The message of a request that failed before an answer came back.
pub fn request_failed(detail: &str) -> (e: QuoteError)
    ensures
        e.0@ == "request failed: "@ + detail@,
{
    let mut v: Vec<char> = Vec::new();
    extend_chars(&mut v, "request failed: ");
    extend_chars(&mut v, detail);
    QuoteError(string_of(v.as_slice()))
}

/// The message of a request a reload superseded.
pub fn superseded_error() -> (e: QuoteError)
    ensures
        e.0@ == "superseded"@,
{
    QuoteError(crate::text::owned("superseded"))
}

/// An answer counts when its status is a success (200 to 299); any other status fails the
/// request, naming the status.
pub fn check_status(status: u16) -> (r: Result<(), QuoteError>)
    ensures
        200 <= status < 300 ==> r is Ok,
        !(200 <= status < 300) ==> (r matches Err(e) && e.0@ == "request failed: HTTP "@ + decimal(status as nat)),
{
    if 200 <= status && status < 300 {
        Ok(())
    } else {
        let mut v: Vec<char> = Vec::new();
        extend_chars(&mut v, "request failed: HTTP ");
        push_decimal(&mut v, status as u64);
        Err(QuoteError(string_of(v.as_slice())))
    }
}

} // verus!
