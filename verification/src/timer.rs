//! Clock client core: the state machine behind the spectator clock.
//! It keeps the latest and the previous clock value, asks the shell to
//! skip redrawing when a repeated value arrives, and schedules a
//! reconnect five seconds after the socket closes.

use vstd::prelude::*;

verus! {

use crate::contest::TimerData;

/// What the shell must do after a step.
#[derive(Debug, PartialEq, Eq)]
pub enum Command {
    /// Redraw the clock.
    Render,
    /// A repeated value arrived: leave the screen alone.
    SkipRender,
    /// Reopen the socket after the given delay in milliseconds.
    ReconnectAfter(u32),
    /// Reopen the socket now.
    Reconnect,
}

/// Messages handled by the clock screen.
#[derive(Debug, PartialEq, Eq)]
pub enum Msg {
    /// A clock value arrived on the socket.
    TimerUpdate(TimerData),
    /// The socket opened.
    Open,
    /// The socket closed.
    Close,
    /// The reconnect delay elapsed.
    Reconnect,
}

/// The model of the clock screen: the value on display and the one
/// before it.
pub struct Model {
    pub p_timer_data: TimerData,
    pub timer_data: TimerData,
}

impl Model {
    /// The initial model, showing the sentinel until a value arrives.
    pub fn new() -> (m: Model)
        ensures
            m.timer_data.current_time == -1,
            m.timer_data.score_freeze_time == -1,
    {
        Model { p_timer_data: TimerData::new(0, 1), timer_data: TimerData::fake() }
    }

    /// Handle one message. A clock value shifts the current value into
    /// the previous slot; the shell redraws exactly when the value
    /// changed. A closed socket reconnects after five seconds.
    pub fn update(&mut self, msg: Msg) -> (cmd: Command)
        ensures
            msg matches Msg::TimerUpdate(t) ==> final(self).timer_data == t
                && final(self).p_timer_data == old(self).timer_data && cmd == (
            if t == old(self).timer_data {
                Command::SkipRender
            } else {
                Command::Render
            }),
            msg matches Msg::Close ==> *final(self) == *old(self) && cmd
                == Command::ReconnectAfter(5000),
            msg matches Msg::Reconnect ==> *final(self) == *old(self) && cmd == Command::Reconnect,
            msg matches Msg::Open ==> *final(self) == *old(self) && cmd == Command::Render,
    {
        match msg {
            Msg::TimerUpdate(t) => {
                self.p_timer_data = self.timer_data;
                self.timer_data = t;
                if self.timer_data == self.p_timer_data {
                    Command::SkipRender
                } else {
                    Command::Render
                }
            },
            Msg::Open => Command::Render,
            Msg::Close => Command::ReconnectAfter(5000),
            Msg::Reconnect => Command::Reconnect,
        }
    }
}

} // verus!
