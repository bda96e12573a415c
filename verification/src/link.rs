//! The power/link supervisor: tracks the USB suspend state from transport
//! lifecycle notifications and gates report transmission on it.
//!
//! While the link is suspended no report is transmitted; the first press
//! during a suspension asks for exactly one remote wakeup, and transmission
//! resumes only once the transport confirms the resume.

use vstd::prelude::*;

verus! {

/// USB link state, as far as transmission cares.
#[derive(Clone, Copy, Debug, PartialEq, Eq, Structural)]
pub enum LinkState {
    /// The link is up: reports may be transmitted.
    Active,
    /// The host suspended the bus: no report may be transmitted.
    Suspended,
}

/// What the scan loop is to do with the report of one cycle.
#[derive(Clone, Copy, Debug, PartialEq, Eq, Structural)]
pub enum TxDecision {
    /// Transmit the report.
    Transmit,
    /// Transmit nothing; signal a remote wakeup to the host.
    SignalWake,
    /// Transmit nothing.
    Skip,
}

/// A lifecycle notification from the USB transport.
#[derive(Clone, Copy, Debug, PartialEq, Eq, Structural)]
pub enum UsbEvent {
    /// The device was enabled (true) or disabled (false) on the bus.
    Enabled(bool),
    /// The host reset the bus.
    Reset,
    /// The host assigned this bus address.
    Addressed(u8),
    /// The device was configured (true) or deconfigured (false).
    Configured(bool),
    /// The bus was suspended (true) or resumed (false).
    Suspended(bool),
}

/// The supervisor's state: link state, configuration flag, and whether a
/// remote wakeup was already signalled during the current suspension.
#[derive(Clone, Copy, Debug, PartialEq, Eq, Structural)]
pub struct Supervisor {
    /// Current link state.
    pub link: LinkState,
    /// The device is configured.
    pub configured: bool,
    /// A remote wakeup was signalled and not yet answered by a resume.
    pub wake_requested: bool,
}

/// Supervisor state after one transport notification.
pub open spec fn spec_on_event(s: Supervisor, e: UsbEvent) -> Supervisor {
    match e {
        UsbEvent::Enabled(_) => Supervisor {
            link: LinkState::Active,
            configured: false,
            wake_requested: false,
        },
        UsbEvent::Reset => Supervisor { configured: false, ..s },
        UsbEvent::Addressed(_) => Supervisor { configured: false, ..s },
        UsbEvent::Configured(b) => Supervisor { configured: b, ..s },
        UsbEvent::Suspended(true) => Supervisor {
            link: LinkState::Suspended,
            wake_requested: false,
            ..s
        },
        UsbEvent::Suspended(false) => Supervisor {
            link: LinkState::Active,
            wake_requested: false,
            ..s
        },
    }
}

/// Transmission decision for one cycle, and the supervisor state after it:
/// transmit while active; while suspended, signal one remote wakeup on the
/// first cycle that saw a press, otherwise nothing.
pub open spec fn spec_decide(s: Supervisor, press: bool) -> (Supervisor, TxDecision) {
    match s.link {
        LinkState::Active => (s, TxDecision::Transmit),
        LinkState::Suspended => {
            if press && !s.wake_requested {
                (Supervisor { wake_requested: true, ..s }, TxDecision::SignalWake)
            } else {
                (s, TxDecision::Skip)
            }
        },
    }
}

/// Suspend gating: a transmission is decided exactly while the link is
/// active — never during a suspension, whatever the key activity.
pub proof fn lemma_suspend_gating(s: Supervisor, press: bool)
    ensures
        spec_decide(s, press).1 == TxDecision::Transmit <==> s.link is Active,
{
}

/// A suspension sees at most one remote-wake signal: after a cycle decided
/// `SignalWake`, every later cycle of the same suspension (no notification
/// in between) decides `Skip` and leaves the state alone.
pub proof fn lemma_single_wake(s: Supervisor, press1: bool, press2: bool)
    requires
        spec_decide(s, press1).1 == TxDecision::SignalWake,
    ensures
        spec_decide(spec_decide(s, press1).0, press2).1 == TxDecision::Skip,
        spec_decide(spec_decide(s, press1).0, press2).0 == spec_decide(s, press1).0,
{
}

/// Transmission resumes only with the transport's say-so: from a suspended
/// state, only a resume notification (or a bus re-enable) makes the link
/// active again.
pub proof fn lemma_resume_confirms(s: Supervisor, e: UsbEvent)
    requires
        s.link is Suspended,
        spec_on_event(s, e).link is Active,
    ensures
        e == UsbEvent::Suspended(false) || e is Enabled,
{
}

impl Supervisor {
    /// A fresh supervisor: link active, not configured, no wakeup pending.
    pub fn new() -> (s: Supervisor)
        ensures
            s == (Supervisor { link: LinkState::Active, configured: false, wake_requested: false }),
    {
        Supervisor { link: LinkState::Active, configured: false, wake_requested: false }
    }

    /// Applies one transport notification.
    pub fn on_event(&mut self, e: UsbEvent)
        ensures
            *final(self) == spec_on_event(*old(self), e),
    {
        match e {
            UsbEvent::Enabled(_) => {
                self.link = LinkState::Active;
                self.configured = false;
                self.wake_requested = false;
            },
            UsbEvent::Reset => {
                self.configured = false;
            },
            UsbEvent::Addressed(_) => {
                self.configured = false;
            },
            UsbEvent::Configured(b) => {
                self.configured = b;
            },
            UsbEvent::Suspended(true) => {
                self.link = LinkState::Suspended;
                self.wake_requested = false;
            },
            UsbEvent::Suspended(false) => {
                self.link = LinkState::Active;
                self.wake_requested = false;
            },
        }
    }

    /// Decides what to do with this cycle's report, given whether the cycle
    /// saw any key press.
    pub fn decide(&mut self, press: bool) -> (d: TxDecision)
        ensures
            *final(self) == spec_decide(*old(self), press).0,
            d == spec_decide(*old(self), press).1,
    {
        match self.link {
            LinkState::Active => TxDecision::Transmit,
            LinkState::Suspended => {
                if press && !self.wake_requested {
                    self.wake_requested = true;
                    TxDecision::SignalWake
                } else {
                    TxDecision::Skip
                }
            },
        }
    }
}

} // verus!
