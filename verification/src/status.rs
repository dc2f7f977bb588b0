//! Status aggregator: turns the bridge's last status snapshot into a
//! presence condition for the chat bot.
//!
//! The aggregator loop itself (a fixed five-second tick that reads the
//! snapshot and pushes the condition to the bot) lives with the I/O; the
//! policy here is total and never errors, so the loop can retry
//! unconditionally on the next tick.
use vstd::prelude::*;
use crate::protocol::{DayTime, ServerStatus};

verus! {

/// The small color set a presence condition may use.
#[derive(Debug, Clone, Copy, PartialEq, Eq, Structural)]
pub enum ConditionColor {
    Green,
    Yellow,
    Red,
}

/// A presentable presence condition: a name and a color.
#[derive(Debug)]
pub struct Condition {
    pub name: String,
    pub color: ConditionColor,
}

/// The name a connected server presents: its current time of day.
pub open spec fn daytime_name(d: DayTime) -> Seq<char> {
    match d {
        DayTime::Morning => "Morning"@,
        DayTime::Day => "Day"@,
        DayTime::Evening => "Evening"@,
        DayTime::Night => "Night"@,
    }
}

/// The color policy: no snapshot means the server is gone (red), a snapshot
/// with no connections is idle (yellow), anything else is healthy (green).
pub open spec fn presence_color(status: Option<ServerStatus>) -> ConditionColor {
    match status {
        None => ConditionColor::Red,
        Some(s) => if s.connections == 0 {
            ConditionColor::Yellow
        } else {
            ConditionColor::Green
        },
    }
}

/// The name policy: the day-time word while connected, an explicit offline
/// word otherwise.
pub open spec fn presence_name(status: Option<ServerStatus>) -> Seq<char> {
    match status {
        None => "Offline"@,
        Some(s) => daytime_name(s.day_time),
    }
}

/// Derives the presence condition from the last observed status snapshot.
/// Total: with no game server connected it degrades to an explicit offline
/// presentation instead of failing.
pub fn presence_of(status: &Option<ServerStatus>) -> (r: Condition)
    ensures
        r.color == presence_color(*status),
        r.name@ == presence_name(*status),
{
    match status {
        None => Condition { name: "Offline".to_owned(), color: ConditionColor::Red },
        Some(s) => {
            let name = match s.day_time {
                DayTime::Morning => "Morning".to_owned(),
                DayTime::Day => "Day".to_owned(),
                DayTime::Evening => "Evening".to_owned(),
                DayTime::Night => "Night".to_owned(),
            };
            let color = if s.connections == 0 {
                ConditionColor::Yellow
            } else {
                ConditionColor::Green
            };
            Condition { name, color }
        },
    }
}

/// The identity endpoint of the chat service's HTTP API, used by the login
/// flow to resolve the authenticated user.
pub fn get_user_self() -> (r: String)
    ensures
        r@ == "https://discordapp.com/api/users/@me"@,
{
    "https://discordapp.com/api/users/@me".to_owned()
}

} // verus!
