//! The decision core of the resolver: retry accounting and the stored
//! outcome records.
//!
//! The transport work itself (connecting, sending, awaiting, sleeping)
//! happens outside this crate's verified core; the code here decides, from
//! each attempt's outcome, whether to retry and what record to seal.

use vstd::prelude::*;

use crate::envelope::MessageEnvelope;
use crate::error::ErrorKind;
use crate::ip::IpAddress;

verus! {

/// One failed, non-final attempt: when it started (milliseconds since the
/// Unix epoch), how long it took, and how it failed.
#[derive(Clone, Copy, Debug, PartialEq, Eq, Structural)]
pub struct Failure {
    pub query_start: u64,
    pub query_duration: u32,
    pub kind: ErrorKind,
}

/// Failures ordered by their start time.
pub open spec fn chronological(s: Seq<Failure>) -> bool {
    forall|i: int, j: int|
        0 <= i < j < s.len() ==> #[trigger] s[i].query_start <= #[trigger] s[j].query_start
}

/// The model of a [`RetriedResponse`]: the envelope is represented by its
/// raw bytes.
#[verifier::ext_equal]
pub struct ResponseV {
    pub failures: Seq<Failure>,
    pub started: u64,
    pub duration: u32,
    pub outcome: Result<Seq<u8>, ErrorKind>,
}

impl ResponseV {
    /// Stored records keep their failures in order, within the on-disk
    /// count limit, and hold a well-formed envelope of bounded size.
    pub open spec fn wf(self) -> bool {
        &&& chronological(self.failures)
        &&& self.failures.len() <= u16::MAX
        &&& match self.outcome {
            Ok(bytes) => bytes.len() <= u32::MAX,
            Err(_) => true,
        }
    }
}

/// The stored history of one `(question, server)` probe: the failed
/// attempts in order, and the final attempt's timing and outcome.
#[derive(Debug)]
pub struct RetriedResponse {
    failures: Vec<Failure>,
    started: u64,
    duration: u32,
    outcome: Result<MessageEnvelope, ErrorKind>,
}

impl View for RetriedResponse {
    type V = ResponseV;

    closed spec fn view(&self) -> ResponseV {
        ResponseV {
            failures: self.failures@,
            started: self.started,
            duration: self.duration,
            outcome: match self.outcome {
                Ok(ref env) => Ok(env@),
                Err(k) => Err(k),
            },
        }
    }
}

impl RetriedResponse {
    /// The envelope's derived decode is consistent with its bytes.
    pub open spec fn wf(self) -> bool {
        &&& self@.wf()
        &&& match self.spec_envelope() {
            Ok(env) => env.wf(),
            Err(_) => true,
        }
    }

    /// The stored outcome, exposed for specification purposes.
    pub closed spec fn spec_envelope(self) -> Result<MessageEnvelope, ErrorKind> {
        self.outcome
    }

    /// The failed attempts, oldest first.
    pub fn failures(&self) -> (r: &Vec<Failure>)
        ensures
            r@ == self@.failures,
    {
        &self.failures
    }

    /// When the final attempt started.
    pub fn started(&self) -> (r: u64)
        ensures
            r == self@.started,
    {
        self.started
    }

    /// How long the final attempt took.
    pub fn duration(&self) -> (r: u32)
        ensures
            r == self@.duration,
    {
        self.duration
    }

    /// The final outcome: the received envelope, or the error kind.
    pub fn outcome(&self) -> (r: Result<&MessageEnvelope, ErrorKind>)
        ensures
            match r {
                Ok(env) => (self@.outcome matches Ok(b) && env@ == b) && (self.spec_envelope()
                    matches Ok(e) && env == &e),
                Err(k) => self@.outcome == Err::<Seq<u8>, ErrorKind>(k) && self.spec_envelope()
                    == Err::<MessageEnvelope, ErrorKind>(k),
            },
    {
        match &self.outcome {
            Ok(env) => Ok(env),
            Err(k) => Err(*k),
        }
    }
}

/// Tracks one attempt chain: how many tries remain and the failures
/// recorded so far. The chain makes `max(retry, 1)` attempts in all.
pub struct RetryTracker {
    tries: u16,
    last_start: u64,
    failures: Vec<Failure>,
}

impl RetryTracker {
    /// The total number of attempts the chain may make.
    pub closed spec fn spec_tries(self) -> u16 {
        self.tries
    }

    /// The failures recorded so far.
    pub closed spec fn spec_failures(self) -> Seq<Failure> {
        self.failures@
    }

    /// No recorded failure starts after `last_start`, the failures are in
    /// order, and at least one attempt is still owed.
    pub open spec fn wf(self) -> bool {
        &&& chronological(self.spec_failures())
        &&& forall|i: int|
            0 <= i < self.spec_failures().len() ==> #[trigger] self.spec_failures()[i].query_start
                <= self.spec_last_start()
        &&& self.spec_failures().len() < self.spec_tries()
        &&& self.spec_tries() >= 1
    }

    /// The latest recorded failure start, or zero.
    pub closed spec fn spec_last_start(self) -> u64 {
        self.last_start
    }

    /// Starts an attempt chain for a configured retry count; at least one
    /// attempt is always made.
    pub fn new(retry: u16) -> (r: RetryTracker)
        ensures
            r.wf(),
            r.spec_tries() == if retry >= 1 {
                retry
            } else {
                1u16
            },
            r.spec_failures() == Seq::<Failure>::empty(),
            r.spec_last_start() == 0,
    {
        let tries: u16 = if retry >= 1 {
            retry
        } else {
            1
        };
        RetryTracker { tries, last_start: 0, failures: Vec::new() }
    }

    /// Whether a failed attempt now would leave tries for another go.
    pub fn has_tries_left(&self) -> (r: bool)
        requires
            self.wf(),
        ensures
            r == (self.spec_failures().len() + 1 < self.spec_tries()),
    {
        // failures.len() < tries - 1, and tries >= 1 by well-formedness
        self.failures.len() < (self.tries as usize) - 1
    }

    /// The latest recorded failure start, or zero; new failures must not
    /// start earlier than this.
    pub fn last_start(&self) -> (r: u64)
        ensures
            r == self.spec_last_start(),
    {
        self.last_start
    }

    /// Records one failed, non-final attempt. Only allowed while another
    /// try is owed, so a sealed record always satisfies the retry budget.
    pub fn record_failure(&mut self, query_start: u64, query_duration: u32, kind: ErrorKind)
        requires
            old(self).wf(),
            old(self).spec_failures().len() + 1 < old(self).spec_tries(),
            query_start >= old(self).spec_last_start(),
        ensures
            final(self).wf(),
            final(self).spec_failures() == old(self).spec_failures().push(
                Failure { query_start, query_duration, kind },
            ),
            final(self).spec_tries() == old(self).spec_tries(),
            final(self).spec_last_start() == query_start,
    {
        self.failures.push(Failure { query_start, query_duration, kind });
        self.last_start = query_start;
    }

    /// Seals the chain after its final attempt. The record keeps the prior
    /// failures in order; `started` and `duration` describe the final
    /// attempt alone, which starts no earlier than any recorded failure;
    /// an error outcome is sealed only once the attempt budget is
    /// exhausted; a received packet is wrapped in an envelope whose bytes
    /// are kept exactly.
    pub fn finish(self, started: u64, duration: u32, outcome: Result<Vec<u8>, ErrorKind>) -> (r:
        RetriedResponse)
        requires
            self.wf(),
            outcome matches Ok(b) ==> b@.len() <= u32::MAX,
            outcome is Err ==> self.spec_failures().len() + 1 == self.spec_tries(),
            started >= self.spec_last_start(),
        ensures
            r.wf(),
            r@.failures == self.spec_failures(),
            r@.failures.len() + 1 <= self.spec_tries(),
            r@.outcome is Err ==> r@.failures.len() + 1 == self.spec_tries(),
            forall|i: int|
                0 <= i < r@.failures.len() ==> (#[trigger] r@.failures[i]).query_start
                    <= r@.started,
            r@.started == started,
            r@.duration == duration,
            match outcome {
                Ok(bytes) => r@.outcome == Ok::<Seq<u8>, ErrorKind>(bytes@),
                Err(k) => r@.outcome == Err::<Seq<u8>, ErrorKind>(k),
            },
    {
        let outcome = match outcome {
            Ok(bytes) => Ok(MessageEnvelope::from_bytes(bytes)),
            Err(k) => Err(k),
        };
        RetriedResponse { failures: self.failures, started, duration, outcome }
    }
}

impl RetriedResponse {
    /// Reassembles a stored record from its persisted parts; the envelope
    /// is rebuilt by re-running the decode on the retained bytes.
    pub fn from_parts(
        failures: Vec<Failure>,
        started: u64,
        duration: u32,
        outcome: Result<Vec<u8>, ErrorKind>,
    ) -> (r: RetriedResponse)
        requires
            chronological(failures@),
            failures@.len() <= u16::MAX,
            outcome matches Ok(b) ==> b@.len() <= u32::MAX,
        ensures
            r.wf(),
            r@.failures == failures@,
            r@.started == started,
            r@.duration == duration,
            match outcome {
                Ok(bytes) => r@.outcome == Ok::<Seq<u8>, ErrorKind>(bytes@),
                Err(k) => r@.outcome == Err::<Seq<u8>, ErrorKind>(k),
            },
    {
        let outcome = match outcome {
            Ok(bytes) => Ok(MessageEnvelope::from_bytes(bytes)),
            Err(k) => Err(k),
        };
        RetriedResponse { failures, started, duration, outcome }
    }
}

/// The resolver configuration: the local socket address all sockets bind
/// to (a zero port picks an ephemeral port), the per-attempt timeout, the
/// attempt budget, and the delay between retries, in milliseconds. The
/// transport that consumes this configuration lives outside the verified
/// core.
#[derive(Clone, Copy, Debug, PartialEq, Eq, Structural)]
pub struct Net {
    pub bind_addr: IpAddress,
    pub bind_port: u16,
    pub timeout: u32,
    pub retry: u16,
    pub retrans: u32,
}

impl Net {
    /// Packages a resolver configuration with an ephemeral source port.
    pub fn new(bind_addr: IpAddress, timeout: u32, retry: u16, retrans: u32) -> (r: Net)
        ensures
            r == (Net { bind_addr, bind_port: 0, timeout, retry, retrans }),
    {
        Net { bind_addr, bind_port: 0, timeout, retry, retrans }
    }
}

} // verus!
