use apple_music_rpc::supervisor::{Action, ConnectionState, Event, Supervisor,
    RECONNECT_BACKOFF_MS, TICK_INTERVAL_MS};

#[test]
fn a_fresh_supervisor_reconnects_first() {
    let s = Supervisor::new();
    assert_eq!(s.conn, ConnectionState::Disconnected);
    assert_eq!(s.next_action(), Action::AttemptReconnect);
}

#[test]
fn repeated_failures_keep_the_full_backoff() {
    let mut s = Supervisor::new();
    for _ in 0..5 {
        assert_eq!(s.next_action(), Action::AttemptReconnect);
        let wait = s.on_event(Event::ReconnectFailed);
        assert_eq!(wait, RECONNECT_BACKOFF_MS);
        assert_eq!(s.conn, ConnectionState::Disconnected);
    }
}

#[test]
fn no_tick_runs_while_disconnected() {
    let mut s = Supervisor::new();
    for _ in 0..3 {
        assert_ne!(s.next_action(), Action::RunTick);
        s.on_event(Event::ReconnectFailed);
    }
}

#[test]
fn a_successful_reconnect_ticks_immediately() {
    let mut s = Supervisor::new();
    let wait = s.on_event(Event::ReconnectSucceeded);
    assert_eq!(wait, 0);
    assert_eq!(s.conn, ConnectionState::Connected);
    assert_eq!(s.next_action(), Action::RunTick);
}

#[test]
fn a_pushed_tick_waits_the_normal_interval() {
    let mut s = Supervisor::new();
    s.on_event(Event::ReconnectSucceeded);
    let wait = s.on_event(Event::TickPushed);
    assert_eq!(wait, TICK_INTERVAL_MS);
    assert_eq!(s.conn, ConnectionState::Connected);
}

#[test]
fn a_sink_failure_goes_straight_to_backoff() {
    let mut s = Supervisor::new();
    s.on_event(Event::ReconnectSucceeded);
    let wait = s.on_event(Event::TickSinkFailed);
    assert_eq!(wait, RECONNECT_BACKOFF_MS);
    assert_eq!(s.conn, ConnectionState::Disconnected);
    assert_eq!(s.next_action(), Action::AttemptReconnect);
}

#[test]
fn a_business_error_only_skips_the_tick() {
    let mut s = Supervisor::new();
    s.on_event(Event::ReconnectSucceeded);
    let wait = s.on_event(Event::TickErrored);
    assert_eq!(wait, TICK_INTERVAL_MS);
    assert_eq!(s.conn, ConnectionState::Connected);
}
