//! Scan sessions and observation delivery.
//!
//! The scanner runs bounded discovery sessions back to back and turns
//! every beacon report, in arrival order, into exactly one delivery:
//! an append to the shared history (buffer sink) or one serialized post
//! to the remote collector (forward sink). A failed post costs a fixed
//! penalty delay and the observation is dropped — never retried, never
//! queued — and the loop goes on to the next report.

use vstd::prelude::*;

verus! {

use vstd::utf8::encode_utf8;
use crate::observation::{BleInfo, BleInfoView};
use crate::codec::{forward_tok, forward_json};

/// The penalty after a failed forward attempt, in milliseconds.
pub const FORWARD_FAILURE_DELAY_MS: u32 = 3000;

/// How discovery sessions are opened: active scanning, interval and
/// window in radio time units, session length in milliseconds.
#[derive(PartialEq, Eq, Structural, Clone, Copy, Debug)]
pub struct ScanConfig {
    pub active: bool,
    pub interval: u16,
    pub window: u16,
    pub session_ms: u32,
}

impl ScanConfig {
    /// The configuration the device scans with: active scanning,
    /// interval 100, window 50, sessions of ten seconds.
    pub fn device_default() -> (c: ScanConfig)
        ensures
            c == (ScanConfig { active: true, interval: 100, window: 50, session_ms: 10000 }),
    {
        ScanConfig { active: true, interval: 100, window: 50, session_ms: 10000 }
    }
}

/// The delivery target for freshly produced observations.
#[derive(PartialEq, Eq, Structural, Clone, Copy, Debug)]
pub enum SinkKind {
    /// Append each observation to the shared history.
    Buffer,
    /// Post each observation to the remote collector at once.
    Forward,
}

/// What one beacon report obliges the driving loop to do.
pub enum Delivery {
    /// Push this observation into the shared history; always succeeds.
    Append(BleInfo),
    /// Post this body to the remote collector now.
    Post(String),
}

/// The scanner: one delivery per beacon report, in arrival order,
/// whatever became of earlier deliveries.
pub struct Scanner {
    sink: SinkKind,
    device_id: String,
    config: ScanConfig,
}

impl Scanner {
    pub closed spec fn sink(&self) -> SinkKind {
        self.sink
    }

    pub closed spec fn device_id(&self) -> Seq<char> {
        self.device_id@
    }

    pub closed spec fn config(&self) -> ScanConfig {
        self.config
    }

    pub fn new(sink: SinkKind, device_id: String, config: ScanConfig) -> (s: Self)
        ensures
            s.sink() == sink,
            s.device_id() == device_id@,
            s.config() == config,
    {
        Scanner { sink, device_id, config }
    }

    /// The configuration to open every session with: sessions are all
    /// alike and follow each other without pause.
    pub fn session_config(&self) -> (c: ScanConfig)
        ensures
            c == self.config(),
    {
        self.config
    }

    /// Turns one beacon report into its single delivery: the
    /// observation itself for a buffer sink, one serialized post body
    /// for a forward sink. Independent of any earlier outcome.
    pub fn plan_report(&self, obs: BleInfo) -> (d: Delivery)
        ensures
            self.sink() == SinkKind::Buffer ==> (d matches Delivery::Append(o) && o == obs),
            self.sink() == SinkKind::Forward ==> (d matches Delivery::Post(body)
                && encode_utf8(body@) == forward_tok(self.device_id(), obs@)),
    {
        match self.sink {
            SinkKind::Buffer => Delivery::Append(obs),
            SinkKind::Forward => Delivery::Post(forward_json(self.device_id.as_str(), &obs)),
        }
    }

    /// What a forward delivery's outcome costs: nothing on success, the
    /// fixed penalty delay on failure. Either way the loop continues to
    /// the next report; the observation itself is dropped, not retried.
    pub fn after_delivery(&self, delivered: bool) -> (delay_ms: u32)
        ensures
            delivered ==> delay_ms == 0,
            !delivered ==> delay_ms == FORWARD_FAILURE_DELAY_MS,
    {
        if delivered {
            0
        } else {
            FORWARD_FAILURE_DELAY_MS
        }
    }
}

/// The post bodies a forward scanner attempts for a run of reports:
/// one per report, in arrival order.
pub open spec fn forward_attempts(device_id: Seq<char>, reports: Seq<BleInfoView>) -> Seq<
    Seq<u8>,
> {
    reports.map_values(|o: BleInfoView| forward_tok(device_id, o))
}

/// The forward loop as a function of the reports and the transport
/// outcomes: the attempts made, and the accumulated penalty delay.
pub open spec fn run_forward_loop(
    device_id: Seq<char>,
    reports: Seq<BleInfoView>,
    outcomes: Seq<bool>,
) -> (Seq<Seq<u8>>, nat)
    decreases reports.len(),
{
    if reports.len() == 0 {
        (Seq::<Seq<u8>>::empty(), 0 as nat)
    } else {
        let tail = run_forward_loop(device_id, reports.drop_first(), outcomes.drop_first());
        (
            seq![forward_tok(device_id, reports[0])] + tail.0,
            ((if outcomes.len() > 0 && outcomes[0] {
                0
            } else {
                FORWARD_FAILURE_DELAY_MS as nat
            }) + tail.1) as nat,
        )
    }
}

/// Delivery isolation: whatever the transport outcomes — even a
/// transport that always fails — every report is attempted exactly
/// once, in arrival order; the outcomes influence only the accumulated
/// delay. In particular, after a failed attempt for one observation the
/// loop still attempts the next one.
pub proof fn lemma_delivery_isolation(
    device_id: Seq<char>,
    reports: Seq<BleInfoView>,
    outcomes: Seq<bool>,
)
    ensures
        run_forward_loop(device_id, reports, outcomes).0 == forward_attempts(device_id, reports),
    decreases reports.len(),
{
    if reports.len() == 0 {
        assert(run_forward_loop(device_id, reports, outcomes).0 =~= forward_attempts(
            device_id,
            reports,
        ));
    } else {
        lemma_delivery_isolation(device_id, reports.drop_first(), outcomes.drop_first());
        assert(run_forward_loop(device_id, reports, outcomes).0 =~= forward_attempts(
            device_id,
            reports,
        ));
    }
}

/// Under a transport that always fails, every report still goes out
/// exactly once and each failed attempt costs exactly the fixed
/// penalty delay, nothing more: the loop pays and moves on.
pub proof fn lemma_always_failing_transport(
    device_id: Seq<char>,
    reports: Seq<BleInfoView>,
    outcomes: Seq<bool>,
)
    requires
        outcomes.len() == reports.len(),
        forall|k: int| 0 <= k < outcomes.len() ==> !outcomes[k],
    ensures
        run_forward_loop(device_id, reports, outcomes).0 == forward_attempts(device_id, reports),
        run_forward_loop(device_id, reports, outcomes).1 == reports.len() * (
        FORWARD_FAILURE_DELAY_MS as nat),
    decreases reports.len(),
{
    lemma_delivery_isolation(device_id, reports, outcomes);
    if reports.len() > 0 {
        assert forall|k: int|
            0 <= k < outcomes.drop_first().len() implies !outcomes.drop_first()[k] by {
            assert(outcomes.drop_first()[k] == outcomes[k + 1]);
        }
        lemma_always_failing_transport(
            device_id,
            reports.drop_first(),
            outcomes.drop_first(),
        );
        assert(reports.drop_first().len() * (FORWARD_FAILURE_DELAY_MS as nat) + (
        FORWARD_FAILURE_DELAY_MS as nat) == reports.len() * (FORWARD_FAILURE_DELAY_MS as nat))
            by (nonlinear_arith)
            requires
                reports.len() >= 1,
                reports.drop_first().len() == reports.len() - 1,
        ;
    }
}

} // verus!
