//! The round log, its queries, the action list and the asteroid registry.

use serenity::defs::{
    get_event_name, parse_event, Action, ActionKind, Event, EventKind, RawEvent,
};
use serenity::lists::{
    ActionMode, ActionsList, AsteroidList, Decision, HistoryEntry, HistoryList,
};
use serenity::bot::Bot;
use serenity::position::Pos;

fn raw(name: &str) -> RawEvent {
    RawEvent { event: String::from(name), bot_id: None, source: None, pos: None, damage: None }
}

#[test]
fn parse_event_tags_known_records() {
    let mut r = raw("hit");
    r.bot_id = Some(3);
    r.source = Some(9);
    assert_eq!(parse_event(&r), Event::Hit { bot_id: 3, source: 9 });

    let mut r = raw("die");
    r.bot_id = Some(5);
    assert_eq!(parse_event(&r), Event::Die { bot_id: 5 });

    let mut r = raw("see");
    r.bot_id = Some(1);
    r.source = Some(2);
    r.pos = Some(Pos::new(4, -4));
    assert_eq!(parse_event(&r), Event::See { bot_id: 1, source: 2, pos: Pos::new(4, -4) });

    let mut r = raw("radarEcho");
    r.pos = Some(Pos::new(2, 2));
    assert_eq!(parse_event(&r), Event::Echo { pos: Pos::new(2, 2) });

    let mut r = raw("detected");
    r.bot_id = Some(0);
    assert_eq!(parse_event(&r), Event::Detected { bot_id: 0 });

    let mut r = raw("damaged");
    r.bot_id = Some(2);
    r.damage = Some(3);
    assert_eq!(parse_event(&r), Event::Damaged { bot_id: 2, damage: 3 });

    let mut r = raw("move");
    r.bot_id = Some(1);
    r.pos = Some(Pos::new(0, 1));
    assert_eq!(parse_event(&r), Event::Move { bot_id: 1, pos: Pos::new(0, 1) });

    let mut r = raw("noaction");
    r.bot_id = Some(1);
    assert_eq!(parse_event(&r), Event::Noaction { bot_id: 1 });
}

#[test]
fn parse_event_maps_malformed_records_to_invalid() {
    // unknown tag
    assert_eq!(parse_event(&raw("warp")), Event::Invalid);
    // known tag, missing field
    assert_eq!(parse_event(&raw("hit")), Event::Invalid);
    assert_eq!(parse_event(&raw("radarEcho")), Event::Invalid);
    let mut r = raw("see");
    r.bot_id = Some(1);
    assert_eq!(parse_event(&r), Event::Invalid);
}

#[test]
fn event_names_match_the_wire() {
    assert_eq!(get_event_name(&Event::Hit { bot_id: 0, source: 0 }), "hit");
    assert_eq!(get_event_name(&Event::Die { bot_id: 0 }), "die");
    assert_eq!(get_event_name(&Event::Echo { pos: Pos::new(0, 0) }), "radarEcho");
    assert_eq!(
        get_event_name(&Event::See { bot_id: 0, source: 0, pos: Pos::new(0, 0) }),
        "see"
    );
    assert_eq!(get_event_name(&Event::Detected { bot_id: 0 }), "detected");
    assert_eq!(get_event_name(&Event::Damaged { bot_id: 0, damage: 0 }), "damaged");
    assert_eq!(get_event_name(&Event::Move { bot_id: 0, pos: Pos::new(0, 0) }), "move");
    assert_eq!(get_event_name(&Event::Noaction { bot_id: 0 }), "invalid");
    assert_eq!(get_event_name(&Event::Invalid), "invalid");
}

#[test]
fn add_events_filters_and_amends() {
    let mut h: Vec<HistoryEntry> = Vec::new();
    let events = vec![
        Event::Echo { pos: Pos::new(1, 1) },
        Event::Noaction { bot_id: 1 },
        Event::Invalid,
        Event::Hit { bot_id: 7, source: 1 },
    ];
    h.add_events(0, &events);
    assert_eq!(h.len(), 1);
    assert_eq!(h[0].events.len(), 2);
    assert_eq!(h[0].events[0], Event::Echo { pos: Pos::new(1, 1) });
    assert_eq!(h[0].events[1], Event::Hit { bot_id: 7, source: 1 });

    // rewriting the same round replaces its event list
    let fresh = vec![Event::Die { bot_id: 7 }];
    h.add_events(0, &fresh);
    assert_eq!(h.len(), 1);
    assert_eq!(h[0].events, vec![Event::Die { bot_id: 7 }]);
}

#[test]
fn queries_by_kind_and_round() {
    let mut h: Vec<HistoryEntry> = Vec::new();
    h.add_events(0, &vec![Event::Echo { pos: Pos::new(1, 0) }]);
    h.add_events(1, &vec![
        Event::Hit { bot_id: 9, source: 1 },
        Event::Echo { pos: Pos::new(2, 0) },
    ]);
    let echoes = h.get_events(EventKind::Echo, 2);
    assert_eq!(echoes.len(), 2);
    assert_eq!(echoes[0], (Event::Echo { pos: Pos::new(1, 0) }, 0));
    assert_eq!(echoes[1], (Event::Echo { pos: Pos::new(2, 0) }, 1));
    // a window of one round sees only the current round
    let hits = h.get_events(EventKind::Hit, 1);
    assert_eq!(hits.len(), 1);
    assert_eq!(hits[0].1, 1);
    assert!(h.get_events_for_round(EventKind::Hit, 0).is_empty());
    assert_eq!(h.get_events_for_round(EventKind::Echo, 1).len(), 1);
}

#[test]
fn echo_positions_merge_sees_first_within_a_round() {
    let mut h: Vec<HistoryEntry> = Vec::new();
    h.add_events(0, &vec![
        Event::Echo { pos: Pos::new(5, 5) },
        Event::See { bot_id: 9, source: 1, pos: Pos::new(3, 3) },
    ]);
    let pairs = h.get_echo_positions(1);
    assert_eq!(pairs, vec![(Pos::new(3, 3), 0), (Pos::new(5, 5), 0)]);
}

#[test]
fn actions_round_trip_and_lookup() {
    let bots = vec![
        Bot { id: 1, alive: true, pos: Pos::new(0, 0), hp: 10 },
        Bot { id: 4, alive: true, pos: Pos::new(1, 1), hp: 10 },
    ];
    let mut actions = <Vec<Action> as ActionsList>::populate(&bots);
    assert_eq!(actions.len(), 2);
    assert_eq!(actions[0].action_type, ActionKind::Noaction);
    actions.set_action_for(4, ActionKind::Cannon, Pos::new(2, 2));
    assert_eq!(actions.get_action(4).unwrap().action_type, ActionKind::Cannon);
    assert_eq!(actions.get_action(4).unwrap().pos, Pos::new(2, 2));
    assert_eq!(actions.get_action(1).unwrap().action_type, ActionKind::Noaction);
    assert!(actions.get_action(9).is_none());

    let mut h: Vec<HistoryEntry> = Vec::new();
    h.add_actions(0, &actions);
    let cannons = h.get_actions_for_round(Some(ActionKind::Cannon), 0);
    assert_eq!(cannons.len(), 1);
    assert_eq!(cannons[0].bot_id, 4);
    let all = h.get_actions_for_round(None, 0);
    assert_eq!(all.len(), 2);
    let for_bot = h.get_action_for_bot(&4, &0).unwrap();
    assert_eq!(for_bot.pos, Pos::new(2, 2));
    assert!(h.get_action_for_bot(&9, &0).is_none());
    let (last, round) = h.get_last_attack_action().unwrap();
    assert_eq!(round, 0);
    assert_eq!(last.bot_id, 4);
}

#[test]
fn modes_and_decisions_amend_in_place() {
    let mut h: Vec<HistoryEntry> = Vec::new();
    h.add_events(0, &Vec::new());
    assert_eq!(h.get_mode(0), ActionMode::Nomode);
    h.set_mode(&0, ActionMode::Scan);
    assert_eq!(h.get_mode(0), ActionMode::Scan);
    let mut d = Decision::with_defaults();
    d.add_attack_decision(&Pos::new(3, 0), &vec![Pos::new(3, 0), Pos::new(1, 1)]);
    h.set_decision(0, d);
    let back = h.get_decision(0);
    assert_eq!(back.mode, ActionMode::Attack);
    assert_eq!(back.target, Some(Pos::new(3, 0)));
    // the target itself is not among the unused echoes
    assert_eq!(back.unused_echoes, vec![Pos::new(1, 1)]);
}

#[test]
fn unused_echoes_drop_once_targeted_later() {
    let mut h: Vec<HistoryEntry> = Vec::new();
    h.add_events(0, &Vec::new());
    let mut d0 = Decision::with_defaults();
    d0.add_attack_decision(&Pos::new(9, 9), &vec![Pos::new(9, 9), Pos::new(1, 1), Pos::new(2, 2)]);
    h.set_decision(0, d0);
    // both skipped sightings are still unresolved
    let unused = h.get_unused_echoes(50);
    assert_eq!(unused, vec![(Pos::new(1, 1), 0), (Pos::new(2, 2), 0)]);
    // a later round finally goes after one of them
    h.add_events(1, &Vec::new());
    let mut d1 = Decision::with_defaults();
    d1.add_attack_decision(&Pos::new(1, 1), &vec![Pos::new(1, 1)]);
    h.set_decision(1, d1);
    let unused = h.get_unused_echoes(50);
    assert_eq!(unused, vec![(Pos::new(2, 2), 0)]);
}

#[test]
fn last_enemy_position_prefers_newest_round_echo_first() {
    let mut h: Vec<HistoryEntry> = Vec::new();
    h.add_events(0, &vec![Event::See { bot_id: 9, source: 1, pos: Pos::new(1, 0) }]);
    h.add_events(1, &vec![
        Event::See { bot_id: 9, source: 1, pos: Pos::new(4, 0) },
        Event::Echo { pos: Pos::new(5, 0) },
    ]);
    let (ev, round) = h.get_last_enemy_position().unwrap();
    assert_eq!(round, 1);
    // within the round, echo evidence is consulted first
    assert_eq!(ev, Event::Echo { pos: Pos::new(5, 0) });
}

#[test]
fn asteroid_registry_promotion() {
    let mut reg: Vec<(Pos, bool)> = Vec::new();
    let p = Pos::new(3, 3);
    assert!(!reg.is_maybe_asteroid(p));
    reg.register_maybe(p);
    assert!(reg.is_maybe_asteroid(p));
    assert!(!reg.is_asteroid(p));
    reg.register(p);
    assert!(reg.is_asteroid(p));
    // confirmation is permanent and idempotent
    reg.register_maybe(p);
    reg.register(p);
    assert!(reg.is_asteroid(p));
    let q = Pos::new(-1, 0);
    assert!(!reg.is_asteroid(q));
    assert!(!reg.is_maybe_asteroid(q));
}
