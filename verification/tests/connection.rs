use coop_tetris::connection::{ConnectionState, FrameActions, NewTimerAction, TimeoutActions, TimerKind};

const NOTHING: TimeoutActions = TimeoutActions {
    send_ping: false,
    schedule_ping: false,
    schedule_disconnect: false,
    close_connection: false,
    remove_player: false,
};

#[test]
fn new_connection_is_live_without_a_disconnect_timer() {
    let c = ConnectionState::new();
    assert!(!c.shutdown);
    assert!(!c.disconnect_timer);
    assert!(c.accepts_events());
}

#[test]
fn ping_timer_pings_and_starts_a_disconnect_timer_once() {
    let mut c = ConnectionState::new();
    let a = c.on_timeout(TimerKind::Ping);
    assert_eq!(
        a,
        TimeoutActions { send_ping: true, schedule_ping: true, schedule_disconnect: true, ..NOTHING }
    );
    assert_eq!(c.on_new_timeout(TimerKind::Ping), NewTimerAction::Ignore);
    assert_eq!(c.on_new_timeout(TimerKind::Disconnect), NewTimerAction::Keep);
    assert!(c.disconnect_timer);
    let a = c.on_timeout(TimerKind::Ping);
    assert_eq!(a, TimeoutActions { send_ping: true, schedule_ping: true, ..NOTHING });
    // a second disconnect timer is cancelled
    assert_eq!(c.on_new_timeout(TimerKind::Disconnect), NewTimerAction::Cancel);
    assert!(c.disconnect_timer);
}

#[test]
fn pong_cancels_the_disconnect_timer() {
    let mut c = ConnectionState::new();
    c.on_timeout(TimerKind::Ping);
    c.on_new_timeout(TimerKind::Disconnect);
    assert_eq!(c.on_frame(false), FrameActions { drop_frame: false, cancel_timer: false });
    assert!(c.disconnect_timer);
    assert_eq!(c.on_frame(true), FrameActions { drop_frame: false, cancel_timer: true });
    assert!(!c.disconnect_timer);
    assert_eq!(c.on_frame(true), FrameActions { drop_frame: false, cancel_timer: false });
}

#[test]
fn disconnect_timer_shuts_the_connection_down() {
    let mut c = ConnectionState::new();
    c.on_timeout(TimerKind::Ping);
    c.on_new_timeout(TimerKind::Disconnect);
    let a = c.on_timeout(TimerKind::Disconnect);
    assert_eq!(a, TimeoutActions { close_connection: true, remove_player: true, ..NOTHING });
    assert!(c.shutdown);
    assert!(!c.accepts_events());
}

#[test]
fn shut_down_connection_ignores_everything() {
    let mut c = ConnectionState::new();
    c.on_timeout(TimerKind::Disconnect);
    let before = c;
    assert_eq!(c.on_timeout(TimerKind::Ping), NOTHING);
    assert_eq!(c.on_timeout(TimerKind::Disconnect), NOTHING);
    assert_eq!(c.on_new_timeout(TimerKind::Disconnect), NewTimerAction::Ignore);
    assert_eq!(c.on_frame(true), FrameActions { drop_frame: true, cancel_timer: false });
    assert_eq!(c, before);
}
