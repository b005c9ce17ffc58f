//! The wire-facing data model: match configuration, round events and the
//! actions the engine answers with.
//!
//! Events and action kinds are closed tagged unions matched exhaustively, so
//! no misspelled kind can fall through silently.  A raw record that cannot
//! be tagged maps to [`Event::Invalid`] and is dropped before storage.

use vstd::prelude::*;
use crate::position::Pos;

verus! {

/// Match configuration, supplied once at match start.
#[derive(Clone, Copy, PartialEq, Eq, Structural, Debug)]
pub struct Config {
    /// Number of bots per team.
    pub bots: i16,
    /// Radius of the hexagonal board.
    pub field_radius: i16,
    /// How far a bot may move in one round.
    pub moves_allowed: i16,
    /// Hit points each bot starts with.
    pub start_hp: i16,
    /// Radius a radar scan covers.
    pub radar: i16,
    /// Radius within which a cannon shot hits.
    pub cannon: i16,
    /// Number of asteroids on the board.
    pub asteroids: i16,
}

/// The bounds under which the engine's arithmetic is exact; every playable
/// configuration satisfies them with a wide margin.
pub open spec fn config_wf(c: Config) -> bool {
    &&& 1 <= c.field_radius <= 1000
    &&& 1 <= c.cannon <= 400
    &&& 1 <= c.radar <= 400
    &&& c.radar <= c.field_radius
    &&& 1 <= c.moves_allowed <= 400
    &&& 0 <= c.bots
    &&& 0 <= c.asteroids
}

/// One disclosed happening of a round.
#[derive(Clone, Copy, PartialEq, Eq, Structural, Debug)]
pub enum Event {
    /// A shot from `source` hit bot `bot_id`.
    Hit { bot_id: i16, source: i16 },
    /// Bot `bot_id` was destroyed.
    Die { bot_id: i16 },
    /// Bot `source` saw a bot at `pos`.
    See { bot_id: i16, source: i16, pos: Pos },
    /// A radar echo at `pos`; who or what sits there is unknown.
    Echo { pos: Pos },
    /// Our bot `bot_id` was seen by the enemy.
    Detected { bot_id: i16 },
    /// Our bot `bot_id` lost `damage` hit points.
    Damaged { bot_id: i16, damage: i16 },
    /// Our bot `bot_id` arrived at `pos`.
    Move { bot_id: i16, pos: Pos },
    /// Bot `bot_id` did nothing.
    Noaction { bot_id: i16 },
    /// A record that could not be tagged.
    Invalid,
}

/// The tag of an event, used by the history queries.
#[derive(Clone, Copy, PartialEq, Eq, Structural, Debug)]
pub enum EventKind {
    Hit,
    Die,
    See,
    Echo,
    Detected,
    Damaged,
    Move,
    Noaction,
    Invalid,
}

pub open spec fn kind_of(e: Event) -> EventKind {
    match e {
        Event::Hit { .. } => EventKind::Hit,
        Event::Die { .. } => EventKind::Die,
        Event::See { .. } => EventKind::See,
        Event::Echo { .. } => EventKind::Echo,
        Event::Detected { .. } => EventKind::Detected,
        Event::Damaged { .. } => EventKind::Damaged,
        Event::Move { .. } => EventKind::Move,
        Event::Noaction { .. } => EventKind::Noaction,
        Event::Invalid => EventKind::Invalid,
    }
}

impl Event {
    /// The tag of this event.
    pub fn kind(&self) -> (k: EventKind)
        ensures
            k == kind_of(*self),
    {
        match self {
            Event::Hit { .. } => EventKind::Hit,
            Event::Die { .. } => EventKind::Die,
            Event::See { .. } => EventKind::See,
            Event::Echo { .. } => EventKind::Echo,
            Event::Detected { .. } => EventKind::Detected,
            Event::Damaged { .. } => EventKind::Damaged,
            Event::Move { .. } => EventKind::Move,
            Event::Noaction { .. } => EventKind::Noaction,
            Event::Invalid => EventKind::Invalid,
        }
    }
}

/// The wire name of an event's tag; events that never go back on the wire
/// report the invalid name.
pub open spec fn spec_event_name(e: Event) -> Seq<char> {
    match kind_of(e) {
        EventKind::Hit => "hit"@,
        EventKind::Die => "die"@,
        EventKind::See => "see"@,
        EventKind::Echo => "radarEcho"@,
        EventKind::Detected => "detected"@,
        EventKind::Damaged => "damaged"@,
        EventKind::Move => "move"@,
        _ => "invalid"@,
    }
}

/// The wire name of an event's tag.
pub fn get_event_name(event: &Event) -> (r: &str)
    ensures
        r@ == spec_event_name(*event),
{
    match event {
        Event::Hit { .. } => "hit",
        Event::Die { .. } => "die",
        Event::See { .. } => "see",
        Event::Echo { .. } => "radarEcho",
        Event::Detected { .. } => "detected",
        Event::Damaged { .. } => "damaged",
        Event::Move { .. } => "move",
        _ => "invalid",
    }
}

/// A raw event record as the transport hands it over: a tag name and the
/// fields that may or may not accompany it.
#[derive(Clone, Debug)]
pub struct RawEvent {
    pub event: String,
    pub bot_id: Option<i16>,
    pub source: Option<i16>,
    pub pos: Option<Pos>,
    pub damage: Option<i16>,
}

/// How a raw record tags: the matching [`Event`] when the tag name is known
/// and its fields are present, [`Event::Invalid`] otherwise.
pub open spec fn spec_parse_event(r: RawEvent) -> Event {
    if r.event@ == "hit"@ {
        if r.bot_id is Some && r.source is Some {
            Event::Hit { bot_id: r.bot_id->0, source: r.source->0 }
        } else {
            Event::Invalid
        }
    } else if r.event@ == "die"@ {
        if r.bot_id is Some {
            Event::Die { bot_id: r.bot_id->0 }
        } else {
            Event::Invalid
        }
    } else if r.event@ == "see"@ {
        if r.bot_id is Some && r.source is Some && r.pos is Some {
            Event::See { bot_id: r.bot_id->0, source: r.source->0, pos: r.pos->0 }
        } else {
            Event::Invalid
        }
    } else if r.event@ == "radarEcho"@ {
        if r.pos is Some {
            Event::Echo { pos: r.pos->0 }
        } else {
            Event::Invalid
        }
    } else if r.event@ == "detected"@ {
        if r.bot_id is Some {
            Event::Detected { bot_id: r.bot_id->0 }
        } else {
            Event::Invalid
        }
    } else if r.event@ == "damaged"@ {
        if r.bot_id is Some && r.damage is Some {
            Event::Damaged { bot_id: r.bot_id->0, damage: r.damage->0 }
        } else {
            Event::Invalid
        }
    } else if r.event@ == "move"@ {
        if r.bot_id is Some && r.pos is Some {
            Event::Move { bot_id: r.bot_id->0, pos: r.pos->0 }
        } else {
            Event::Invalid
        }
    } else if r.event@ == "noaction"@ {
        if r.bot_id is Some {
            Event::Noaction { bot_id: r.bot_id->0 }
        } else {
            Event::Invalid
        }
    } else {
        Event::Invalid
    }
}

/// Tags a raw record; an unknown name or a missing field makes it
/// [`Event::Invalid`], which the history store later drops.
pub fn parse_event(ev: &RawEvent) -> (e: Event)
    ensures
        e == spec_parse_event(*ev),
{
    if ev.event == "hit".to_owned() {
        match (ev.bot_id, ev.source) {
            (Some(bot_id), Some(source)) => Event::Hit { bot_id, source },
            _ => Event::Invalid,
        }
    } else if ev.event == "die".to_owned() {
        match ev.bot_id {
            Some(bot_id) => Event::Die { bot_id },
            _ => Event::Invalid,
        }
    } else if ev.event == "see".to_owned() {
        match (ev.bot_id, ev.source, ev.pos) {
            (Some(bot_id), Some(source), Some(pos)) => Event::See { bot_id, source, pos },
            _ => Event::Invalid,
        }
    } else if ev.event == "radarEcho".to_owned() {
        match ev.pos {
            Some(pos) => Event::Echo { pos },
            _ => Event::Invalid,
        }
    } else if ev.event == "detected".to_owned() {
        match ev.bot_id {
            Some(bot_id) => Event::Detected { bot_id },
            _ => Event::Invalid,
        }
    } else if ev.event == "damaged".to_owned() {
        match (ev.bot_id, ev.damage) {
            (Some(bot_id), Some(damage)) => Event::Damaged { bot_id, damage },
            _ => Event::Invalid,
        }
    } else if ev.event == "move".to_owned() {
        match (ev.bot_id, ev.pos) {
            (Some(bot_id), Some(pos)) => Event::Move { bot_id, pos },
            _ => Event::Invalid,
        }
    } else if ev.event == "noaction".to_owned() {
        match ev.bot_id {
            Some(bot_id) => Event::Noaction { bot_id },
            _ => Event::Invalid,
        }
    } else {
        Event::Invalid
    }
}

/// What a bot does this round.
#[derive(Clone, Copy, PartialEq, Eq, Structural, Debug)]
pub enum ActionKind {
    Radar,
    Cannon,
    Move,
    Noaction,
}

/// One bot's order for the round: scan, fire at or move to `pos`, or rest.
#[derive(Clone, Copy, PartialEq, Eq, Structural, Debug)]
pub struct Action {
    pub bot_id: i16,
    pub action_type: ActionKind,
    pub pos: Pos,
}

/// A bot as the match start message describes it.
#[derive(Clone, Debug)]
pub struct BotDef {
    pub bot_id: i16,
    pub name: String,
    pub alive: bool,
    pub pos: Option<Pos>,
    pub hp: Option<i16>,
}

/// Our team as the match start message describes it.
#[derive(Clone, Debug)]
pub struct Team {
    pub team_id: i16,
    pub bots: Vec<BotDef>,
}

/// The match start message: our roster and the configuration.
#[derive(Clone, Debug)]
pub struct Start {
    pub you: Team,
    pub config: Config,
}

/// One round's input: its id and the raw event records.
#[derive(Clone, Debug)]
pub struct IncomingEvents {
    pub round_id: i16,
    pub events: Vec<RawEvent>,
}

/// One round's output: the actions handed back to the transport, newest
/// first.
#[derive(Clone, Debug)]
pub struct ActionsMessage {
    pub round_id: i16,
    pub actions: Vec<Action>,
}

} // verus!
