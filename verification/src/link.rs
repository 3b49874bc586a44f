use vstd::prelude::*;

verus! {

/// How long to wait before trying again after a failed reconnect attempt.
pub const RECONNECT_DELAY_MS: u64 = 5000;

/// Pause between dropping the Wi-Fi association and joining again.
pub const WIFI_RESET_PAUSE_MS: u64 = 500;

/// How long to wait for the link, and then for DHCP, after rejoining Wi-Fi.
pub const NETWORK_WAIT_MS: u64 = 15000;

/// A topic this client subscribes to.
#[derive(Clone, Copy, PartialEq, Eq, Debug, Structural)]
pub enum Subscription {
    Motor,
    Calibrate,
}

/// Where an MQTT connection attempt stands.
#[derive(Clone, Copy, PartialEq, Eq, Debug, Structural)]
pub enum ConnectState {
    Idle,
    AwaitTcp,
    AwaitConnack,
    AwaitMotorSuback,
    AwaitCalibrateSuback,
    Finished,
}

/// What happened since the last action of a connection attempt.
#[derive(Clone, Copy, PartialEq, Eq, Debug, Structural)]
pub enum ConnectEvent {
    /// The attempt begins.
    Start,
    /// The TCP connection was opened.
    TcpConnected,
    /// The TCP connection failed.
    TcpFailed,
    /// Opening the TCP connection timed out.
    TcpTimedOut,
    /// The MQTT handshake (CONNECT and CONNACK) succeeded or not.
    MqttHandshake(bool),
    /// A SUBSCRIBE was answered (or failed: the outcome is not checked).
    Subscribed,
}

/// What the caller does next in a connection attempt.
#[derive(Clone, Copy, PartialEq, Eq, Debug, Structural)]
pub enum ConnectAction {
    /// Close the socket and open a TCP connection to the broker, with a
    /// timeout.
    OpenTcp,
    /// Perform the MQTT handshake.
    SendConnect,
    /// Subscribe to a topic under the given packet id.
    Subscribe(Subscription, u16),
    /// The attempt is over: connected (and subscribed) or not.
    Finish(bool),
}

/// One step of a connection attempt: open TCP, do the MQTT handshake, then
/// subscribe to the motor topic (packet id 1) and the calibration topic
/// (packet id 2) whatever the subscriptions answer. A TCP failure or timeout,
/// a failed handshake, or an event the state does not expect ends the attempt
/// unconnected.
pub open spec fn spec_connect_step(s: ConnectState, e: ConnectEvent) -> (ConnectState, ConnectAction) {
    match (s, e) {
        (ConnectState::Idle, ConnectEvent::Start) => (ConnectState::AwaitTcp, ConnectAction::OpenTcp),
        (ConnectState::AwaitTcp, ConnectEvent::TcpConnected) => (
            ConnectState::AwaitConnack,
            ConnectAction::SendConnect,
        ),
        (ConnectState::AwaitConnack, ConnectEvent::MqttHandshake(true)) => (
            ConnectState::AwaitMotorSuback,
            ConnectAction::Subscribe(Subscription::Motor, 1),
        ),
        (ConnectState::AwaitMotorSuback, ConnectEvent::Subscribed) => (
            ConnectState::AwaitCalibrateSuback,
            ConnectAction::Subscribe(Subscription::Calibrate, 2),
        ),
        (ConnectState::AwaitCalibrateSuback, ConnectEvent::Subscribed) => (
            ConnectState::Finished,
            ConnectAction::Finish(true),
        ),
        _ => (ConnectState::Finished, ConnectAction::Finish(false)),
    }
}

/// The next state and action of a connection attempt.
pub fn connect_step(s: ConnectState, e: ConnectEvent) -> (r: (ConnectState, ConnectAction))
    ensures
        r == spec_connect_step(s, e),
{
    match (s, e) {
        (ConnectState::Idle, ConnectEvent::Start) => (ConnectState::AwaitTcp, ConnectAction::OpenTcp),
        (ConnectState::AwaitTcp, ConnectEvent::TcpConnected) => (
            ConnectState::AwaitConnack,
            ConnectAction::SendConnect,
        ),
        (ConnectState::AwaitConnack, ConnectEvent::MqttHandshake(true)) => (
            ConnectState::AwaitMotorSuback,
            ConnectAction::Subscribe(Subscription::Motor, 1),
        ),
        (ConnectState::AwaitMotorSuback, ConnectEvent::Subscribed) => (
            ConnectState::AwaitCalibrateSuback,
            ConnectAction::Subscribe(Subscription::Calibrate, 2),
        ),
        (ConnectState::AwaitCalibrateSuback, ConnectEvent::Subscribed) => (
            ConnectState::Finished,
            ConnectAction::Finish(true),
        ),
        _ => (ConnectState::Finished, ConnectAction::Finish(false)),
    }
}

/// Where the reconnect loop stands.
#[derive(Clone, Copy, PartialEq, Eq, Debug, Structural)]
pub enum ReconnectState {
    CheckNetwork,
    ResettingWifi,
    AwaitLink,
    AwaitConfig,
    ConnectingMqtt,
    Done,
}

/// What happened since the reconnect loop's last action.
#[derive(Clone, Copy, PartialEq, Eq, Debug, Structural)]
pub enum ReconnectEvent {
    /// The state of the network: link up, IP configuration up.
    NetworkStatus { link_up: bool, config_up: bool },
    /// The Wi-Fi association was dropped and joined again (or not).
    WifiReset(bool),
    /// The awaited link or configuration came up.
    Up,
    /// Waiting for it timed out.
    TimedOut,
    /// A connection attempt ended, connected or not.
    MqttAttempt(bool),
}

/// What the caller does next in the reconnect loop.
#[derive(Clone, Copy, PartialEq, Eq, Debug, Structural)]
pub enum ReconnectAction {
    /// Drop the Wi-Fi association, pause this long, and join again.
    ResetWifi(u64),
    /// Wait at most this long for the link to come up.
    WaitLinkUp(u64),
    /// Wait at most this long for the IP configuration (DHCP).
    WaitConfigUp(u64),
    /// Make a new socket, drop the buffered MQTT bytes and run a connection
    /// attempt.
    ConnectMqtt,
    /// Sleep this long, then report the network status again.
    RetryAfter(u64),
    /// Reconnected.
    Reconnected,
}

/// One step of the reconnect loop. With the link or the IP configuration
/// down, Wi-Fi is rejoined and the link, then DHCP, awaited (15 s each); a
/// timeout there, or a failed connection attempt, sleeps 5 s and starts over
/// from the network check; with the network up a connection attempt is made,
/// and its success ends the loop. An event the state does not expect starts
/// over from the network check at once.
pub open spec fn spec_reconnect_step(s: ReconnectState, e: ReconnectEvent) -> (ReconnectState, ReconnectAction) {
    match (s, e) {
        (ReconnectState::CheckNetwork, ReconnectEvent::NetworkStatus { link_up, config_up }) => if link_up
            && config_up {
            (ReconnectState::ConnectingMqtt, ReconnectAction::ConnectMqtt)
        } else {
            (ReconnectState::ResettingWifi, ReconnectAction::ResetWifi(WIFI_RESET_PAUSE_MS))
        },
        (ReconnectState::ResettingWifi, ReconnectEvent::WifiReset(_)) => (
            ReconnectState::AwaitLink,
            ReconnectAction::WaitLinkUp(NETWORK_WAIT_MS),
        ),
        (ReconnectState::AwaitLink, ReconnectEvent::Up) => (
            ReconnectState::AwaitConfig,
            ReconnectAction::WaitConfigUp(NETWORK_WAIT_MS),
        ),
        (ReconnectState::AwaitConfig, ReconnectEvent::Up) => (
            ReconnectState::ConnectingMqtt,
            ReconnectAction::ConnectMqtt,
        ),
        (ReconnectState::ConnectingMqtt, ReconnectEvent::MqttAttempt(true)) => (
            ReconnectState::Done,
            ReconnectAction::Reconnected,
        ),
        (ReconnectState::AwaitLink, ReconnectEvent::TimedOut) => (
            ReconnectState::CheckNetwork,
            ReconnectAction::RetryAfter(RECONNECT_DELAY_MS),
        ),
        (ReconnectState::AwaitConfig, ReconnectEvent::TimedOut) => (
            ReconnectState::CheckNetwork,
            ReconnectAction::RetryAfter(RECONNECT_DELAY_MS),
        ),
        (ReconnectState::ConnectingMqtt, ReconnectEvent::MqttAttempt(false)) => (
            ReconnectState::CheckNetwork,
            ReconnectAction::RetryAfter(RECONNECT_DELAY_MS),
        ),
        _ => (ReconnectState::CheckNetwork, ReconnectAction::RetryAfter(0)),
    }
}

/// The next state and action of the reconnect loop.
pub fn reconnect_step(s: ReconnectState, e: ReconnectEvent) -> (r: (ReconnectState, ReconnectAction))
    ensures
        r == spec_reconnect_step(s, e),
{
    match (s, e) {
        (ReconnectState::CheckNetwork, ReconnectEvent::NetworkStatus { link_up, config_up }) => if link_up
            && config_up {
            (ReconnectState::ConnectingMqtt, ReconnectAction::ConnectMqtt)
        } else {
            (ReconnectState::ResettingWifi, ReconnectAction::ResetWifi(WIFI_RESET_PAUSE_MS))
        },
        (ReconnectState::ResettingWifi, ReconnectEvent::WifiReset(_)) => (
            ReconnectState::AwaitLink,
            ReconnectAction::WaitLinkUp(NETWORK_WAIT_MS),
        ),
        (ReconnectState::AwaitLink, ReconnectEvent::Up) => (
            ReconnectState::AwaitConfig,
            ReconnectAction::WaitConfigUp(NETWORK_WAIT_MS),
        ),
        (ReconnectState::AwaitConfig, ReconnectEvent::Up) => (
            ReconnectState::ConnectingMqtt,
            ReconnectAction::ConnectMqtt,
        ),
        (ReconnectState::ConnectingMqtt, ReconnectEvent::MqttAttempt(true)) => (
            ReconnectState::Done,
            ReconnectAction::Reconnected,
        ),
        (ReconnectState::AwaitLink, ReconnectEvent::TimedOut) => (
            ReconnectState::CheckNetwork,
            ReconnectAction::RetryAfter(RECONNECT_DELAY_MS),
        ),
        (ReconnectState::AwaitConfig, ReconnectEvent::TimedOut) => (
            ReconnectState::CheckNetwork,
            ReconnectAction::RetryAfter(RECONNECT_DELAY_MS),
        ),
        (ReconnectState::ConnectingMqtt, ReconnectEvent::MqttAttempt(false)) => (
            ReconnectState::CheckNetwork,
            ReconnectAction::RetryAfter(RECONNECT_DELAY_MS),
        ),
        _ => (ReconnectState::CheckNetwork, ReconnectAction::RetryAfter(0)),
    }
}

/// A connection attempt reports success only when the handshake succeeded
/// and both subscriptions were sent: the events of a successful attempt are
/// exactly start, TCP connected, handshake accepted and two answers.
pub proof fn law_connect_succeeds_only_after_handshake_and_subscriptions(s: ConnectState, e: ConnectEvent)
    ensures
        spec_connect_step(s, e).1 == ConnectAction::Finish(true) ==> s == ConnectState::AwaitCalibrateSuback && e
            == ConnectEvent::Subscribed,
        spec_connect_step(s, e).0 == ConnectState::AwaitMotorSuback ==> s == ConnectState::AwaitConnack && e
            == ConnectEvent::MqttHandshake(true),
        spec_connect_step(ConnectState::Idle, ConnectEvent::Start) == (ConnectState::AwaitTcp, ConnectAction::OpenTcp),
        spec_connect_step(ConnectState::AwaitTcp, ConnectEvent::TcpConnected) == (
            ConnectState::AwaitConnack,
            ConnectAction::SendConnect,
        ),
        spec_connect_step(ConnectState::AwaitConnack, ConnectEvent::MqttHandshake(true)) == (
            ConnectState::AwaitMotorSuback,
            ConnectAction::Subscribe(Subscription::Motor, 1),
        ),
        spec_connect_step(ConnectState::AwaitMotorSuback, ConnectEvent::Subscribed) == (
            ConnectState::AwaitCalibrateSuback,
            ConnectAction::Subscribe(Subscription::Calibrate, 2),
        ),
        spec_connect_step(ConnectState::AwaitCalibrateSuback, ConnectEvent::Subscribed) == (
            ConnectState::Finished,
            ConnectAction::Finish(true),
        ),
{
}

/// Wi-Fi is rejoined exactly when the link or the IP configuration is down;
/// the loop ends only after a successful connection attempt; every timeout
/// and failed attempt waits 5 s before checking the network again.
pub proof fn law_reconnect_decisions(s: ReconnectState, e: ReconnectEvent, link_up: bool, config_up: bool)
    ensures
        spec_reconnect_step(ReconnectState::CheckNetwork, ReconnectEvent::NetworkStatus { link_up, config_up }).1
            == (if link_up && config_up {
            ReconnectAction::ConnectMqtt
        } else {
            ReconnectAction::ResetWifi(WIFI_RESET_PAUSE_MS)
        }),
        spec_reconnect_step(s, e).1 == ReconnectAction::Reconnected ==> s == ReconnectState::ConnectingMqtt && e
            == ReconnectEvent::MqttAttempt(true),
        spec_reconnect_step(s, e).0 == ReconnectState::Done ==> spec_reconnect_step(s, e).1
            == ReconnectAction::Reconnected,
        (e == ReconnectEvent::TimedOut && (s == ReconnectState::AwaitLink || s == ReconnectState::AwaitConfig)) || (e
            == ReconnectEvent::MqttAttempt(false) && s == ReconnectState::ConnectingMqtt) ==> spec_reconnect_step(s, e)
            == (ReconnectState::CheckNetwork, ReconnectAction::RetryAfter(RECONNECT_DELAY_MS)),
{
}

} // verus!
