//! Keeping the Wi-Fi connection, as state machines: the caller carries out the
//! step and reports whether it succeeded.

use vstd::prelude::*;

verus! {

/// The transmit power in quarters of a dBm (about 8.5 dBm). More than that often
/// fails in authentication on boards with a poor antenna match.
pub const TX_POWER: i8 = 34;

/// The steps of the connection task.
#[derive(Clone, Copy, PartialEq, Eq, Structural, Debug)]
pub enum WifiStep {
    /// Ask whether the station is connected.
    Check,
    /// Wait for the connection to end.
    AwaitDisconnect,
    /// Full radio while reconnecting.
    WakeAfterDisconnect,
    /// Pause after a connection ended.
    PauseAfterDisconnect,
    /// Set the station's configuration, which starts the radio.
    Configure,
    /// Pause after the configuration was refused.
    PauseAfterRefusal,
    /// Full radio before connecting.
    WakeBeforeConnect,
    /// Lower the transmit power.
    LowerTxPower,
    /// Connect.
    Connect,
    /// Keep the modem awake.
    StayAwake,
    /// Pause after connecting failed.
    PauseAfterFailure,
}

/// The step after `step`, which succeeded or not.
pub open spec fn step_after(step: WifiStep, ok: bool) -> WifiStep {
    match step {
        WifiStep::Check => if ok {
            WifiStep::AwaitDisconnect
        } else {
            WifiStep::Configure
        },
        WifiStep::AwaitDisconnect => WifiStep::WakeAfterDisconnect,
        WifiStep::WakeAfterDisconnect => WifiStep::PauseAfterDisconnect,
        WifiStep::PauseAfterDisconnect => WifiStep::Configure,
        WifiStep::Configure => if ok {
            WifiStep::WakeBeforeConnect
        } else {
            WifiStep::PauseAfterRefusal
        },
        WifiStep::PauseAfterRefusal => WifiStep::Check,
        WifiStep::WakeBeforeConnect => WifiStep::LowerTxPower,
        WifiStep::LowerTxPower => WifiStep::Connect,
        WifiStep::Connect => if ok {
            WifiStep::StayAwake
        } else {
            WifiStep::PauseAfterFailure
        },
        WifiStep::StayAwake => WifiStep::Check,
        WifiStep::PauseAfterFailure => WifiStep::Check,
    }
}

/// The step after `step`, which succeeded or not.
pub fn next_step(step: WifiStep, ok: bool) -> (r: WifiStep)
    ensures
        r == step_after(step, ok),
{
    match step {
        WifiStep::Check => if ok {
            WifiStep::AwaitDisconnect
        } else {
            WifiStep::Configure
        },
        WifiStep::AwaitDisconnect => WifiStep::WakeAfterDisconnect,
        WifiStep::WakeAfterDisconnect => WifiStep::PauseAfterDisconnect,
        WifiStep::PauseAfterDisconnect => WifiStep::Configure,
        WifiStep::Configure => if ok {
            WifiStep::WakeBeforeConnect
        } else {
            WifiStep::PauseAfterRefusal
        },
        WifiStep::PauseAfterRefusal => WifiStep::Check,
        WifiStep::WakeBeforeConnect => WifiStep::LowerTxPower,
        WifiStep::LowerTxPower => WifiStep::Connect,
        WifiStep::Connect => if ok {
            WifiStep::StayAwake
        } else {
            WifiStep::PauseAfterFailure
        },
        WifiStep::StayAwake | WifiStep::PauseAfterFailure => WifiStep::Check,
    }
}

/// How long a pause is, in seconds; other steps take none.
pub fn pause_secs(step: WifiStep) -> (r: u64)
    ensures
        r == (match step {
            WifiStep::PauseAfterDisconnect => 3u64,
            WifiStep::PauseAfterRefusal => 3u64,
            WifiStep::PauseAfterFailure => 5u64,
            _ => 0u64,
        }),
{
    match step {
        WifiStep::PauseAfterDisconnect | WifiStep::PauseAfterRefusal => 3,
        WifiStep::PauseAfterFailure => 5,
        _ => 0,
    }
}

/// Every attempt to connect follows a configuration that was accepted, with
/// the radio awake and the transmit power lowered in between, whatever the
/// latter two steps report.
pub proof fn lemma_connect_follows_lowered_power(step: WifiStep, ok: bool)
    requires
        step_after(step, ok) == WifiStep::Connect
            || step_after(step, ok) == WifiStep::LowerTxPower
            || step_after(step, ok) == WifiStep::WakeBeforeConnect,
    ensures
        step_after(step, ok) == WifiStep::Connect ==> step == WifiStep::LowerTxPower,
        step_after(step, ok) == WifiStep::LowerTxPower ==> step == WifiStep::WakeBeforeConnect,
        step_after(step, ok) == WifiStep::WakeBeforeConnect ==> step == WifiStep::Configure && ok,
{
}

/// The steps after which the network is up.
#[derive(Clone, Copy, PartialEq, Eq, Structural, Debug)]
pub enum LinkStage {
    /// Waiting for the link.
    Link,
    /// Waiting for an address.
    Address,
    /// The network is up.
    Up,
}

/// How long to wait before asking again, in milliseconds.
pub const POLL_MS: u64 = 500;

/// The stage after asking whether what `stage` waits for has come.
pub fn link_step(stage: LinkStage, ready: bool) -> (r: LinkStage)
    ensures
        !ready ==> r == stage,
        ready ==> r == (match stage {
            LinkStage::Link => LinkStage::Address,
            _ => LinkStage::Up,
        }),
{
    if !ready {
        return stage;
    }
    match stage {
        LinkStage::Link => LinkStage::Address,
        _ => LinkStage::Up,
    }
}

/// A round of the connection task. While the station is connected its end is awaited, and then the
/// radio is woken and a pause is made before anything else; without a connection, or after that,
/// the station is configured. Once that is accepted the radio is woken, the power is lowered and
/// the station connects, whatever waking and lowering report. Connected, it is kept awake; where
/// configuring or connecting fails there is a pause. Then the round begins again.
pub proof fn lemma_round(
    connected: bool,
    first: WifiStep,
    lost: Seq<bool>,
    configured: bool,
    ready: Seq<bool>,
    joined: bool,
    last: bool,
)
    requires
        call_ensures(next_step, (WifiStep::Check, connected), first),
        lost.len() == 3,
        ready.len() == 2,
    ensures
        connected ==> {
            let wake = step_after(first, lost[0]);
            let pause = step_after(wake, lost[1]);
            &&& first == WifiStep::AwaitDisconnect
            &&& wake == WifiStep::WakeAfterDisconnect
            &&& pause == WifiStep::PauseAfterDisconnect
            &&& step_after(pause, lost[2]) == WifiStep::Configure
        },
        !connected ==> first == WifiStep::Configure,
        ({
            let wake = step_after(WifiStep::Configure, configured);
            let lower = step_after(wake, ready[0]);
            let connect = step_after(lower, ready[1]);
            let end = step_after(connect, joined);
            &&& configured ==> wake == WifiStep::WakeBeforeConnect && lower
                == WifiStep::LowerTxPower && connect == WifiStep::Connect
            &&& configured && joined ==> end == WifiStep::StayAwake
            &&& configured && !joined ==> end == WifiStep::PauseAfterFailure
            &&& configured ==> step_after(end, last) == WifiStep::Check
            &&& !configured ==> wake == WifiStep::PauseAfterRefusal
            &&& !configured ==> step_after(wake, last) == WifiStep::Check
        }),
{
}

/// The steps that are taken are those.
pub proof fn lemma_step_taken(step: WifiStep, ok: bool, next: WifiStep)
    requires
        call_ensures(next_step, (step, ok), next),
    ensures
        next == step_after(step, ok),
        next != step,
        next is Check ==> step is StayAwake || step is PauseAfterFailure
            || step is PauseAfterRefusal,
        next is AwaitDisconnect ==> step is Check && ok,
        next is Connect ==> step is LowerTxPower,
        next is StayAwake ==> step is Connect && ok,
{
}

/// A pause after a connection ended or a configuration was refused takes three seconds, one after
/// connecting failed five, and a step that is no pause none.
pub proof fn lemma_pauses(step: WifiStep, secs: u64)
    requires
        call_ensures(pause_secs, (step,), secs),
    ensures
        secs == 3 <==> step is PauseAfterDisconnect || step is PauseAfterRefusal,
        secs == 5 <==> step is PauseAfterFailure,
        secs == 3 || secs == 5 || secs == 0,
{
}

/// The network is up once the link has come and then an address, each asked for until it has; it
/// stays up, and nothing is skipped.
pub proof fn lemma_network_comes_up(stage: LinkStage, ready: bool, next: LinkStage)
    requires
        call_ensures(link_step, (stage, ready), next),
    ensures
        !ready ==> next == stage,
        ready && stage is Link ==> next is Address,
        ready && stage is Address ==> next is Up,
        stage is Up ==> next is Up,
{
}

} // verus!
