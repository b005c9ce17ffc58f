//! Whole-round scenarios through the engine.

use serenity::defs::{ActionKind, BotDef, Config, IncomingEvents, RawEvent, Start, Team};
use serenity::engine::Ai;
use serenity::lists::{ActionMode, AsteroidList, HistoryList};
use serenity::position::Pos;

fn config(bots: i16, cannon: i16) -> Config {
    Config {
        bots,
        field_radius: 14,
        moves_allowed: 2,
        start_hp: 10,
        radar: 2,
        cannon,
        asteroids: 4,
    }
}

fn bot_def(id: i16, pos: Pos) -> BotDef {
    BotDef {
        bot_id: id,
        name: format!("bot{}", id),
        alive: true,
        pos: Some(pos),
        hp: Some(10),
    }
}

fn start(cfg: Config, bots: Vec<BotDef>) -> Start {
    Start { you: Team { team_id: 0, bots }, config: cfg }
}

fn no_events(round_id: i16) -> IncomingEvents {
    IncomingEvents { round_id, events: Vec::new() }
}

fn echo_at(pos: Pos) -> RawEvent {
    RawEvent {
        event: String::from("radarEcho"),
        bot_id: None,
        source: None,
        pos: Some(pos),
        damage: None,
    }
}

fn die_of(bot_id: i16) -> RawEvent {
    RawEvent {
        event: String::from("die"),
        bot_id: Some(bot_id),
        source: None,
        pos: None,
        damage: None,
    }
}

fn hit_on(bot_id: i16, source: i16) -> RawEvent {
    RawEvent {
        event: String::from("hit"),
        bot_id: Some(bot_id),
        source: Some(source),
        pos: None,
        damage: None,
    }
}

fn detected_of(bot_id: i16) -> RawEvent {
    RawEvent {
        event: String::from("detected"),
        bot_id: Some(bot_id),
        source: None,
        pos: None,
        damage: None,
    }
}

fn hex_dist(a: Pos, b: Pos) -> i16 {
    let dx = (a.x - b.x).abs();
    let dy = (a.y - b.y).abs();
    let dz = ((a.x + a.y) - (b.x + b.y)).abs();
    dx.max(dy).max(dz)
}

/// A single bot with no history scans: exactly one radar order.
#[test]
fn first_round_single_bot_scans() {
    let mut ai = Ai::new(&start(config(1, 1), vec![bot_def(1, Pos::new(0, 0))]), 7);
    let msg = ai.handle_message(no_events(0));
    assert_eq!(msg.round_id, 0);
    assert_eq!(msg.actions.len(), 1);
    assert_eq!(msg.actions[0].bot_id, 1);
    assert_eq!(msg.actions[0].action_type, ActionKind::Radar);
    assert_eq!(msg.actions[0].pos, ai.radar_positions[0]);
}

/// An enemy death short-circuits the ladder before the fresh echo rule:
/// the round scans instead of attacking.
#[test]
fn kill_check_overrides_fresh_echo() {
    let mut ai = Ai::new(
        &start(config(2, 1), vec![bot_def(1, Pos::new(-8, 0)), bot_def(2, Pos::new(8, 0))]),
        11,
    );
    let msg = ai.handle_message(IncomingEvents {
        round_id: 0,
        events: vec![die_of(7), echo_at(Pos::new(2, -1))],
    });
    assert_eq!(ai.history.get_mode(0), ActionMode::Scan);
    assert_eq!(msg.actions.len(), 2);
    for a in &msg.actions {
        assert_eq!(a.action_type, ActionKind::Radar);
    }
}

/// A fresh echo after a scanning round: one bot re-radars the target, the
/// others fire the triangle around it.
#[test]
fn fresh_echo_after_scan_round_attacks_and_scans() {
    let mut ai = Ai::new(
        &start(
            config(3, 1),
            vec![
                bot_def(1, Pos::new(10, 0)),
                bot_def(2, Pos::new(-5, 8)),
                bot_def(3, Pos::new(0, -10)),
            ],
        ),
        13,
    );
    let _ = ai.handle_message(no_events(0));
    assert_eq!(ai.history.get_mode(0), ActionMode::Scan);
    let msg = ai.handle_message(IncomingEvents {
        round_id: 1,
        events: vec![echo_at(Pos::new(0, 0))],
    });
    assert_eq!(ai.history.get_mode(1), ActionMode::Attack);
    assert_eq!(msg.actions.len(), 3);
    let radars: Vec<_> =
        msg.actions.iter().filter(|a| a.action_type == ActionKind::Radar).collect();
    let cannons: Vec<_> =
        msg.actions.iter().filter(|a| a.action_type == ActionKind::Cannon).collect();
    assert_eq!(radars.len(), 1);
    assert_eq!(cannons.len(), 2);
    assert_eq!(radars[0].pos, Pos::new(0, 0));
    assert!(cannons[0].pos != cannons[1].pos);
    for c in cannons {
        assert!(hex_dist(c.pos, Pos::new(0, 0)) <= 1);
    }
}

/// Echo evidence outranks hit evidence: with both in the same round, the
/// attack goes to the sighted position.
#[test]
fn echo_priority_over_hit() {
    let mut ai = Ai::new(
        &start(config(2, 1), vec![bot_def(1, Pos::new(-8, 0)), bot_def(2, Pos::new(8, 0))]),
        17,
    );
    let _ = ai.handle_message(IncomingEvents {
        round_id: 0,
        events: vec![echo_at(Pos::new(6, 0))],
    });
    assert_eq!(ai.history.get_mode(0), ActionMode::Attack);
    // this round a hit on an enemy arrives together with a new sighting
    let _ = ai.handle_message(IncomingEvents {
        round_id: 1,
        events: vec![hit_on(99, 1), echo_at(Pos::new(-5, 5))],
    });
    let d = ai.history.get_decision(1);
    assert_eq!(d.mode, ActionMode::Attack);
    assert_eq!(d.target, Some(Pos::new(-5, 5)));
}

/// A detected bot moves, overriding any other assignment, to the legal
/// neighbor farthest from its living teammates.
#[test]
fn detected_bot_spreads_away_from_teammates() {
    let teammates = [Pos::new(5, 0), Pos::new(0, 5), Pos::new(-5, 0)];
    let mut ai = Ai::new(
        &start(
            config(4, 1),
            vec![
                bot_def(1, teammates[0]),
                bot_def(2, Pos::new(0, 0)),
                bot_def(3, teammates[1]),
                bot_def(4, teammates[2]),
            ],
        ),
        19,
    );
    let _ = ai.handle_message(IncomingEvents { round_id: 0, events: vec![detected_of(2)] });
    let msg = ai.handle_message(no_events(1));
    let action = msg.actions.iter().find(|a| a.bot_id == 2).expect("bot 2 must act");
    assert_eq!(action.action_type, ActionKind::Move);

    // recompute the expected destination: legal neighbors in coordinate
    // order, keeping the latest maximizer of the minimum teammate distance
    let me = Pos::new(0, 0);
    let mut best: Option<(Pos, i16)> = None;
    for x in -2..=2i16 {
        for y in -2..=2i16 {
            let q = Pos::new(x, y);
            if q == me || hex_dist(me, q) > 2 || hex_dist(q, Pos::new(0, 0)) > 14 {
                continue;
            }
            let md = teammates.iter().map(|t| hex_dist(*t, q)).min().unwrap();
            match best {
                Some((_, bd)) if md < bd => {},
                _ => {
                    best = Some((q, md));
                },
            }
        }
    }
    assert_eq!(action.pos, best.unwrap().0);
}

/// Two independent lone-bot Maybe verdicts at one position promote it to a
/// confirmed asteroid, and a later echo there no longer triggers an attack.
#[test]
fn two_maybes_confirm_an_asteroid() {
    let rock = Pos::new(3, 0);
    let mut ai = Ai::new(&start(config(1, 2), vec![bot_def(1, Pos::new(-6, 0))]), 23);
    // a sighting with no cannon history: attacked, not yet suspected
    let _ = ai.handle_message(IncomingEvents { round_id: 0, events: vec![echo_at(rock)] });
    assert_eq!(ai.history.get_mode(0), ActionMode::Attack);
    assert!(!ai.asteroids.is_maybe_asteroid(rock));
    // the stale continuation re-radars the position
    let _ = ai.handle_message(no_events(1));
    // the echo returns; the lone bot's shot from two rounds back covers it
    // and no hit arrived, so the verdict is a first Maybe
    let _ = ai.handle_message(IncomingEvents { round_id: 2, events: vec![echo_at(rock)] });
    assert!(ai.asteroids.is_maybe_asteroid(rock));
    assert!(!ai.asteroids.is_asteroid(rock));
    let _ = ai.handle_message(no_events(3));
    // a second independent Maybe: promoted to confirmed
    let _ = ai.handle_message(IncomingEvents { round_id: 4, events: vec![echo_at(rock)] });
    assert!(ai.asteroids.is_asteroid(rock));
    // a further echo there is stripped before the ladder: the round scans
    let _ = ai.handle_message(IncomingEvents { round_id: 5, events: vec![echo_at(rock)] });
    assert_eq!(ai.history.get_mode(5), ActionMode::Scan);
}

/// The radar cursor wraps past the end of the sweep back to its first
/// center, so the sweep restarts.
#[test]
fn radar_cursor_wraps_to_the_start() {
    let mut ai = Ai::new(&start(config(1, 1), vec![bot_def(1, Pos::new(0, 0))]), 29);
    let first_center = ai.radar_positions[0];
    ai.radar_index = ai.radar_positions.len();
    let msg = ai.handle_message(no_events(0));
    assert_eq!(msg.actions.len(), 1);
    assert_eq!(msg.actions[0].action_type, ActionKind::Radar);
    assert_eq!(msg.actions[0].pos, first_center);
    assert_eq!(ai.radar_index, 1);
}

/// Damage and movement events update the roster in place; a dead bot stops
/// receiving orders.
#[test]
fn events_update_the_roster() {
    let mut ai = Ai::new(
        &start(config(2, 1), vec![bot_def(1, Pos::new(-8, 0)), bot_def(2, Pos::new(8, 0))]),
        31,
    );
    let moved = Pos::new(7, 1);
    let _ = ai.handle_message(IncomingEvents {
        round_id: 0,
        events: vec![
            RawEvent {
                event: String::from("move"),
                bot_id: Some(2),
                source: None,
                pos: Some(moved),
                damage: None,
            },
            RawEvent {
                event: String::from("damaged"),
                bot_id: Some(2),
                source: None,
                pos: None,
                damage: Some(3),
            },
        ],
    });
    assert_eq!(ai.bots[1].pos, moved);
    assert_eq!(ai.bots[1].hp, 7);
    // the bot dies; the next round sends one order only
    let _ = ai.handle_message(IncomingEvents { round_id: 1, events: vec![die_of(2)] });
    assert!(!ai.bots[1].alive);
    let msg = ai.handle_message(no_events(2));
    assert_eq!(msg.actions.len(), 1);
    assert_eq!(msg.actions[0].bot_id, 1);
}

/// Friendly-fire avoidance: a cannon position that would blast a teammate
/// is replaced by a clear one when a clear hex exists.
#[test]
fn avoid_friendly_fire_moves_the_shot() {
    let ai = Ai::new(
        &start(config(2, 2), vec![bot_def(1, Pos::new(4, 0)), bot_def(2, Pos::new(-9, 0))]),
        37,
    );
    let target = Pos::new(4, 1);
    let shifted = ai.avoid_friendly_fire(&target);
    assert_ne!(shifted, target);
    for b in [Pos::new(4, 0), Pos::new(-9, 0)] {
        assert!(hex_dist(b, shifted) >= 2, "shot at {:?} still blasts {:?}", shifted, b);
    }
    assert!(hex_dist(target, shifted) <= 4);
    // with no teammate near the target the position stands
    let safe = Pos::new(-2, -2);
    assert_eq!(ai.avoid_friendly_fire(&safe), safe);
}

/// The evasion overlay runs on top of the ladder: a detected bot moves
/// even while the round attacks, and the rest keep their attack orders.
#[test]
fn evasion_overrides_an_attack_assignment() {
    let mut ai = Ai::new(
        &start(config(2, 1), vec![bot_def(1, Pos::new(-8, 0)), bot_def(2, Pos::new(8, 0))]),
        41,
    );
    let _ = ai.handle_message(IncomingEvents { round_id: 0, events: vec![detected_of(2)] });
    let msg = ai.handle_message(IncomingEvents {
        round_id: 1,
        events: vec![echo_at(Pos::new(0, 0))],
    });
    assert_eq!(ai.history.get_mode(1), ActionMode::Attack);
    let bot2 = msg.actions.iter().find(|a| a.bot_id == 2).expect("bot 2 must act");
    assert_eq!(bot2.action_type, ActionKind::Move);
    let bot1 = msg.actions.iter().find(|a| a.bot_id == 1).expect("bot 1 must act");
    assert!(bot1.action_type == ActionKind::Radar || bot1.action_type == ActionKind::Cannon);
}
