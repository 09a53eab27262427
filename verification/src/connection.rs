use vstd::prelude::*;

verus! {

/// What a timer of a client's connection is for.
#[derive(Debug, Clone, Copy, PartialEq, Eq)]
pub enum TimerKind {
    /// Time to ping the client again.
    Ping,
    /// The client has not answered a ping in time.
    Disconnect,
}

/// What the server decides about a client's connection: whether it has been
/// shut down, and whether a disconnect timer is running.
#[derive(Debug, Clone, Copy, PartialEq, Eq)]
pub struct ConnectionState {
    pub shutdown: bool,
    pub disconnect_timer: bool,
}

/// What the server does when a timer fires.
#[derive(Debug, Clone, Copy, PartialEq, Eq)]
pub struct TimeoutActions {
    /// Send a ping to the client.
    pub send_ping: bool,
    /// Start a ping timer.
    pub schedule_ping: bool,
    /// Start a disconnect timer.
    pub schedule_disconnect: bool,
    /// Close the connection to the client.
    pub close_connection: bool,
    /// Remove the client's player from the game.
    pub remove_player: bool,
}

/// What the server does with a timer that was just started.
#[derive(Debug, Clone, Copy, PartialEq, Eq)]
pub enum NewTimerAction {
    /// Nothing.
    Ignore,
    /// Keep it as the connection's disconnect timer.
    Keep,
    /// Cancel it: a disconnect timer is already running.
    Cancel,
}

/// What the server does with a frame that arrives.
#[derive(Debug, Clone, Copy, PartialEq, Eq)]
pub struct FrameActions {
    /// Drop the frame unread, because the connection is shut down.
    pub drop_frame: bool,
    /// Cancel the running disconnect timer.
    pub cancel_timer: bool,
}

/// The actions that do nothing.
pub open spec fn no_actions() -> TimeoutActions {
    TimeoutActions {
        send_ping: false,
        schedule_ping: false,
        schedule_disconnect: false,
        close_connection: false,
        remove_player: false,
    }
}

impl ConnectionState {
    /// A connection that was just opened: live, with no disconnect timer.
    pub fn new() -> (r: ConnectionState)
        ensures
            !r.shutdown,
            !r.disconnect_timer,
    {
        ConnectionState { shutdown: false, disconnect_timer: false }
    }

    /// Whether the server still handles the connection's events.
    pub fn accepts_events(&self) -> (r: bool)
        ensures
            r == !self.shutdown,
    {
        !self.shutdown
    }

    /// Decides what to do when a timer fires. A shut down connection does
    /// nothing. A ping timer pings the client, starts the next ping timer,
    /// and starts a disconnect timer unless one runs. A disconnect timer
    /// shuts the connection down, closes it and removes the player.
    pub fn on_timeout(&mut self, kind: TimerKind) -> (r: TimeoutActions)
        ensures
            old(self).shutdown ==> r == no_actions() && *final(self) == *old(self),
            !old(self).shutdown && kind == TimerKind::Ping ==> {
                &&& r == TimeoutActions {
                    send_ping: true,
                    schedule_ping: true,
                    schedule_disconnect: !old(self).disconnect_timer,
                    close_connection: false,
                    remove_player: false,
                }
                &&& *final(self) == *old(self)
            },
            !old(self).shutdown && kind == TimerKind::Disconnect ==> {
                &&& r == TimeoutActions {
                    send_ping: false,
                    schedule_ping: false,
                    schedule_disconnect: false,
                    close_connection: true,
                    remove_player: true,
                }
                &&& final(self).shutdown
                &&& final(self).disconnect_timer == old(self).disconnect_timer
            },
    {
        if self.shutdown {
            return TimeoutActions {
                send_ping: false,
                schedule_ping: false,
                schedule_disconnect: false,
                close_connection: false,
                remove_player: false,
            };
        }
        match kind {
            TimerKind::Ping => {
                // if there is currently no disconnect timeout, start one
                TimeoutActions {
                    send_ping: true,
                    schedule_ping: true,
                    schedule_disconnect: !self.disconnect_timer,
                    close_connection: false,
                    remove_player: false,
                }
            },
            TimerKind::Disconnect => {
                // the client is unresponsive: ignore all its future data
                self.shutdown = true;
                TimeoutActions {
                    send_ping: false,
                    schedule_ping: false,
                    schedule_disconnect: false,
                    close_connection: true,
                    remove_player: true,
                }
            },
        }
    }

    /// Decides what to do with a timer that was just started: the first
    /// disconnect timer is kept, a second one cancelled; nothing is done on
    /// a shut down connection or for a ping timer.
    pub fn on_new_timeout(&mut self, kind: TimerKind) -> (r: NewTimerAction)
        ensures
            old(self).shutdown || kind == TimerKind::Ping ==> r == NewTimerAction::Ignore
                && *final(self) == *old(self),
            !old(self).shutdown && kind == TimerKind::Disconnect && !old(self).disconnect_timer ==> r
                == NewTimerAction::Keep && *final(self) == (ConnectionState {
                disconnect_timer: true,
                ..*old(self)
            }),
            !old(self).shutdown && kind == TimerKind::Disconnect && old(self).disconnect_timer ==> r
                == NewTimerAction::Cancel && *final(self) == *old(self),
    {
        if self.shutdown {
            return NewTimerAction::Ignore;
        }
        match kind {
            TimerKind::Disconnect => {
                if !self.disconnect_timer {
                    // no timeout was registered: register this one
                    self.disconnect_timer = true;
                    NewTimerAction::Keep
                } else {
                    // a timeout is already registered: this one is a duplicate
                    NewTimerAction::Cancel
                }
            },
            TimerKind::Ping => NewTimerAction::Ignore,
        }
    }

    /// Decides what to do with an incoming frame: a shut down connection
    /// drops it; a pong cancels the running disconnect timer, if any.
    pub fn on_frame(&mut self, is_pong: bool) -> (r: FrameActions)
        ensures
            old(self).shutdown ==> r == (FrameActions { drop_frame: true, cancel_timer: false })
                && *final(self) == *old(self),
            !old(self).shutdown ==> {
                &&& r == (FrameActions {
                    drop_frame: false,
                    cancel_timer: is_pong && old(self).disconnect_timer,
                })
                &&& final(self).shutdown == old(self).shutdown
                &&& final(self).disconnect_timer == (old(self).disconnect_timer && !is_pong)
            },
    {
        if self.shutdown {
            return FrameActions { drop_frame: true, cancel_timer: false };
        }
        let mut cancel_timer = false;
        if is_pong {
            // if there is a timeout, cancel it
            if self.disconnect_timer {
                cancel_timer = true;
                self.disconnect_timer = false;
            }
        }
        FrameActions { drop_frame: false, cancel_timer }
    }
}

} // verus!
