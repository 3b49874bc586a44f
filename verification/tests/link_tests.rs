use planty::link::{
    connect_step, reconnect_step, ConnectAction, ConnectEvent, ConnectState, ReconnectAction, ReconnectEvent,
    ReconnectState, Subscription,
};

fn run_connect(events: &[ConnectEvent]) -> Vec<ConnectAction> {
    let mut state = ConnectState::Idle;
    let mut actions = Vec::new();
    for e in events {
        let (s, a) = connect_step(state, *e);
        state = s;
        actions.push(a);
    }
    actions
}

#[test]
fn connect_attempt_succeeds() {
    let actions = run_connect(&[
        ConnectEvent::Start,
        ConnectEvent::TcpConnected,
        ConnectEvent::MqttHandshake(true),
        ConnectEvent::Subscribed,
        ConnectEvent::Subscribed,
    ]);
    assert_eq!(
        actions,
        vec![
            ConnectAction::OpenTcp,
            ConnectAction::SendConnect,
            ConnectAction::Subscribe(Subscription::Motor, 1),
            ConnectAction::Subscribe(Subscription::Calibrate, 2),
            ConnectAction::Finish(true),
        ]
    );
}

#[test]
fn connect_attempt_fails() {
    assert_eq!(run_connect(&[ConnectEvent::Start, ConnectEvent::TcpTimedOut])[1], ConnectAction::Finish(false));
    assert_eq!(run_connect(&[ConnectEvent::Start, ConnectEvent::TcpFailed])[1], ConnectAction::Finish(false));
    assert_eq!(
        run_connect(&[ConnectEvent::Start, ConnectEvent::TcpConnected, ConnectEvent::MqttHandshake(false)])[2],
        ConnectAction::Finish(false)
    );
    assert_eq!(run_connect(&[ConnectEvent::Subscribed])[0], ConnectAction::Finish(false));
}

#[test]
fn reconnect_with_network_up() {
    let (s, a) = reconnect_step(ReconnectState::CheckNetwork, ReconnectEvent::NetworkStatus { link_up: true, config_up: true });
    assert_eq!(a, ReconnectAction::ConnectMqtt);
    let (s, a) = reconnect_step(s, ReconnectEvent::MqttAttempt(false));
    assert_eq!((s, a), (ReconnectState::CheckNetwork, ReconnectAction::RetryAfter(5000)));
    let (s, _) = reconnect_step(s, ReconnectEvent::NetworkStatus { link_up: true, config_up: true });
    let (s, a) = reconnect_step(s, ReconnectEvent::MqttAttempt(true));
    assert_eq!((s, a), (ReconnectState::Done, ReconnectAction::Reconnected));
}

#[test]
fn reconnect_with_network_down() {
    let (s, a) = reconnect_step(ReconnectState::CheckNetwork, ReconnectEvent::NetworkStatus { link_up: true, config_up: false });
    assert_eq!(a, ReconnectAction::ResetWifi(500));
    let (s, a) = reconnect_step(s, ReconnectEvent::WifiReset(false));
    assert_eq!(a, ReconnectAction::WaitLinkUp(15000));
    let (s, a) = reconnect_step(s, ReconnectEvent::TimedOut);
    assert_eq!((s, a), (ReconnectState::CheckNetwork, ReconnectAction::RetryAfter(5000)));
    let (s, _) = reconnect_step(s, ReconnectEvent::NetworkStatus { link_up: false, config_up: false });
    let (s, _) = reconnect_step(s, ReconnectEvent::WifiReset(true));
    let (s, a) = reconnect_step(s, ReconnectEvent::Up);
    assert_eq!(a, ReconnectAction::WaitConfigUp(15000));
    let (s, a) = reconnect_step(s, ReconnectEvent::Up);
    assert_eq!((s, a), (ReconnectState::ConnectingMqtt, ReconnectAction::ConnectMqtt));
}
