//! The engine's state and the per-round pipeline: events come in, the
//! asteroid classifier rewrites them, the bot roster is updated, and the
//! decision ladder turns history into one action per living bot.

use vstd::prelude::*;
use crate::bot::Bot;
use crate::defs::{Action, ActionKind, Config, config_wf, Event, EventKind};
use crate::lists::{
    HistoryEntry, Decision, ActionMode, ActionsList, AsteroidList, HistoryList, history_wf, event_pos,
    actions_of_kind, events_of_kind, reg_confirmed, reg_known, spec_register, spec_register_maybe,
    lemma_register_props, lemma_register_maybe_props, find_action_idx, unused_desc,
};
use crate::position::{Pos, dist, spec_origo, pos_in_range, pos_near_board};
use crate::radar::{Radar, spec_radar_positions};
use crate::rng::GameRng;
use crate::tribool::Tribool;

verus! {

/// The decision engine: the bot roster, the round log, the asteroid
/// registry, the radar sweep cursor and the injected random source.
pub struct Ai {
    pub bots: Vec<Bot>,
    pub round_id: i16,
    pub radar_index: usize,
    pub radar_positions: Vec<Pos>,
    pub history: Vec<HistoryEntry>,
    pub asteroids: Vec<(Pos, bool)>,
    pub config: Config,
    pub rng: GameRng,
}

/// Whether a bot with this id is on our roster.
pub open spec fn is_our_bot_spec(bots: Seq<Bot>, id: i16) -> bool {
    exists|i: int| 0 <= i < bots.len() && (#[trigger] bots[i]).id == id
}

/// The index of the first bot with this id, or `-1`.
pub open spec fn find_bot_idx(bots: Seq<Bot>, id: i16) -> int
    decreases bots.len(),
{
    if bots.len() == 0 {
        -1
    } else if bots[0].id == id {
        0
    } else {
        let t = find_bot_idx(bots.drop_first(), id);
        if t == -1 {
            -1
        } else {
            t + 1
        }
    }
}

pub proof fn lemma_find_bot_idx(bots: Seq<Bot>, id: i16)
    ensures
        find_bot_idx(bots, id) >= -1,
        find_bot_idx(bots, id) == -1 ==> forall|k: int|
            0 <= k < bots.len() ==> (#[trigger] bots[k]).id != id,
        find_bot_idx(bots, id) >= 0 ==> 0 <= find_bot_idx(bots, id) < bots.len() && bots[
            find_bot_idx(bots, id)
        ].id == id && (forall|k: int|
            0 <= k < find_bot_idx(bots, id) ==> (#[trigger] bots[k]).id != id),
        (find_bot_idx(bots, id) >= 0) == is_our_bot_spec(bots, id),
    decreases bots.len(),
{
    if bots.len() > 0 && bots[0].id != id {
        let d = bots.drop_first();
        lemma_find_bot_idx(d, id);
        let t = find_bot_idx(d, id);
        assert forall|k: int| 0 <= k < d.len() implies #[trigger] d[k] == bots[k + 1] by {
            assert(d[k] == bots.subrange(1, bots.len() as int)[k]);
        }
        if t == -1 {
            assert forall|k: int| 0 <= k < bots.len() implies (#[trigger] bots[k]).id != id by {
                if k > 0 {
                    assert(d[k - 1] == bots[k]);
                }
            }
        } else {
            assert(d[t] == bots[t + 1]);
            assert forall|k: int| 0 <= k < t + 1 implies (#[trigger] bots[k]).id != id by {
                if k > 0 {
                    assert(d[k - 1] == bots[k]);
                }
            }
        }
    }
    if bots.len() > 0 && bots[0].id == id {
        assert(is_our_bot_spec(bots, id));
    }
}

/// How many bots are alive.
pub open spec fn bots_alive_spec(bots: Seq<Bot>) -> int
    decreases bots.len(),
{
    if bots.len() == 0 {
        0
    } else {
        bots_alive_spec(bots.drop_last()) + if bots.last().alive {
            1int
        } else {
            0int
        }
    }
}

/// The living bots, in roster order.
pub open spec fn live_bots_spec(bots: Seq<Bot>) -> Seq<Bot>
    decreases bots.len(),
{
    if bots.len() == 0 {
        Seq::empty()
    } else {
        let rest = live_bots_spec(bots.drop_last());
        if bots.last().alive {
            rest.push(bots.last())
        } else {
            rest
        }
    }
}

/// The living bots healthy enough to be drafted for an attack.
pub open spec fn healthy_live_spec(bots: Seq<Bot>) -> Seq<Bot>
    decreases bots.len(),
{
    if bots.len() == 0 {
        Seq::empty()
    } else {
        let rest = healthy_live_spec(bots.drop_last());
        if bots.last().alive && bots.last().hp >= crate::bot::MIN_HEALTHY_HP {
            rest.push(bots.last())
        } else {
            rest
        }
    }
}

/// No two roster entries share an id.
pub open spec fn bot_ids_distinct(bots: Seq<Bot>) -> bool {
    forall|i: int, j: int| 0 <= i < j < bots.len() ==> bots[i].id != bots[j].id
}

/// Some living bot stands strictly within `limit` of `p`.
pub open spec fn danger(bots: Seq<Bot>, p: Pos, limit: int) -> bool {
    exists|i: int|
        0 <= i < bots.len() && (#[trigger] bots[i]).alive && dist(bots[i].pos, p) < limit
}

/// What the caller promises of a round's incoming events: positions are on
/// the board, and events about our own bots name bots on the roster.
pub open spec fn events_input_wf(s: Seq<Event>, bots: Seq<Bot>, field_radius: int) -> bool {
    forall|j: int|
        0 <= j < s.len() ==> match #[trigger] s[j] {
            Event::See { pos, .. } => dist(pos, spec_origo()) <= field_radius,
            Event::Echo { pos } => dist(pos, spec_origo()) <= field_radius,
            Event::Move { bot_id, pos } => dist(pos, spec_origo()) <= field_radius
                && is_our_bot_spec(bots, bot_id),
            Event::Damaged { bot_id, .. } => is_our_bot_spec(bots, bot_id),
            Event::Detected { bot_id } => is_our_bot_spec(bots, bot_id),
            _ => true,
        }
}

/// Subtraction on hit points, saturating at the ends of their range.
pub open spec fn sat_sub(hp: i16, damage: i16) -> i16 {
    let v = hp - damage;
    if v < -32768 {
        -32768 as i16
    } else if v > 32767 {
        32767 as i16
    } else {
        v as i16
    }
}

/// What one event does to the roster: a death marks its bot dead, damage
/// is taken off its bot's hit points, a movement relocates its bot.
pub open spec fn apply_event(bots: Seq<Bot>, e: Event) -> Seq<Bot> {
    match e {
        Event::Die { bot_id } => {
            let k = find_bot_idx(bots, bot_id);
            if k >= 0 {
                bots.update(k, Bot { alive: false, ..bots[k] })
            } else {
                bots
            }
        },
        Event::Damaged { bot_id, damage } => {
            let k = find_bot_idx(bots, bot_id);
            if k >= 0 {
                bots.update(k, Bot { hp: sat_sub(bots[k].hp, damage), ..bots[k] })
            } else {
                bots
            }
        },
        Event::Move { bot_id, pos } => {
            let k = find_bot_idx(bots, bot_id);
            if k >= 0 {
                bots.update(k, Bot { pos, ..bots[k] })
            } else {
                bots
            }
        },
        _ => bots,
    }
}

/// The roster after the first `i` events.
pub open spec fn bots_after(bots: Seq<Bot>, s: Seq<Event>, i: int) -> Seq<Bot>
    decreases i,
{
    if i <= 0 {
        bots
    } else {
        apply_event(bots_after(bots, s, i - 1), s[i - 1])
    }
}

/// Event application never invents or renames bots, keeps them on the
/// board, and keeps distinct ids distinct.
pub proof fn lemma_bots_after_ok(bots: Seq<Bot>, s: Seq<Event>, i: int, field_radius: int)
    requires
        0 <= i <= s.len(),
        events_input_wf(s, bots, field_radius),
        forall|k: int|
            0 <= k < bots.len() ==> dist((#[trigger] bots[k]).pos, spec_origo()) <= field_radius,
    ensures
        bots_after(bots, s, i).len() == bots.len(),
        forall|k: int|
            0 <= k < bots.len() ==> (#[trigger] bots_after(bots, s, i)[k]).id == bots[k].id,
        forall|k: int|
            0 <= k < bots.len() ==> dist((#[trigger] bots_after(bots, s, i)[k]).pos, spec_origo())
                <= field_radius,
    decreases i,
{
    if i > 0 {
        lemma_bots_after_ok(bots, s, i - 1, field_radius);
        let prev = bots_after(bots, s, i - 1);
        let e = s[i - 1];
        match e {
            Event::Die { bot_id } => {
                lemma_find_bot_idx(prev, bot_id);
            },
            Event::Damaged { bot_id, .. } => {
                lemma_find_bot_idx(prev, bot_id);
            },
            Event::Move { bot_id, pos } => {
                lemma_find_bot_idx(prev, bot_id);
            },
            _ => {},
        }
    }
}

/// Positions within blast distance of a cannon action of the evidence
/// round count as covered.
pub open spec fn in_blast(cps: Seq<Pos>, pos: Pos, cannon: int) -> bool {
    exists|i: int| 0 <= i < cps.len() && dist(#[trigger] cps[i], pos) <= cannon
}

/// The actions of `s` made by the given bot, in order.
pub open spec fn filter_actions_by_bot(s: Seq<Action>, id: i16) -> Seq<Action>
    decreases s.len(),
{
    if s.len() == 0 {
        Seq::empty()
    } else {
        let rest = filter_actions_by_bot(s.drop_last(), id);
        if s.last().bot_id == id {
            rest.push(s.last())
        } else {
            rest
        }
    }
}

/// The positions of a sequence of actions.
pub open spec fn action_positions(s: Seq<Action>) -> Seq<Pos> {
    s.map(|i: int, a: Action| a.pos)
}

/// Where a hit traces back to: the shooter's first cannon action of the
/// previous round, if it recorded one.
pub open spec fn spec_pos_from_hit(h: Seq<HistoryEntry>, ev: Event, round_id: int) -> Option<Pos> {
    let prev = round_id - 1;
    let source: i16 = match ev {
        Event::Hit { source, .. } => source,
        _ => (-1) as i16,
    };
    if 0 <= prev < h.len() {
        let cannons = filter_actions_by_bot(
            actions_of_kind(h[prev].actions@, Some(ActionKind::Cannon)),
            source,
        );
        if cannons.len() > 0 {
            Some(cannons[0].pos)
        } else {
            None
        }
    } else {
        None
    }
}

/// Whether some hit of the round traces to a cannon position within blast
/// distance of `pos`: a damageable target sat there, so it is no asteroid.
pub open spec fn hit_correlated(
    h: Seq<HistoryEntry>,
    hits: Seq<Event>,
    round_id: int,
    pos: Pos,
    cannon: int,
) -> bool {
    exists|i: int|
        0 <= i < hits.len() && spec_pos_from_hit(h, #[trigger] hits[i], round_id) is Some && dist(
            spec_pos_from_hit(h, hits[i], round_id)->0,
            pos,
        ) <= cannon
}

/// The cannon positions of the evidence round, or none when that round is
/// not on record.
pub open spec fn cannon_evidence(h: Seq<HistoryEntry>, er: int) -> Seq<Pos> {
    if 0 <= er < h.len() {
        action_positions(actions_of_kind(h[er].actions@, Some(ActionKind::Cannon)))
    } else {
        Seq::empty()
    }
}

/// The classifier's verdict on an echo at `pos`.
///
/// A confirmed position is a Yes outright.  Otherwise the eligible cannon
/// evidence is last round's with two or more bots alive, and the round
/// before that for a lone bot, whose verdict is capped at Maybe.  No
/// evidence, or a correlated hit, means No.
pub open spec fn spec_classify(
    reg: Seq<(Pos, bool)>,
    h: Seq<HistoryEntry>,
    bots: Seq<Bot>,
    cannon: int,
    round_id: int,
    pos: Pos,
    hits: Seq<Event>,
) -> Tribool {
    if reg_confirmed(reg, pos) {
        Tribool::Yes
    } else {
        let single = bots_alive_spec(bots) == 1;
        let er = if single {
            round_id - 2
        } else {
            round_id - 1
        };
        if in_blast(cannon_evidence(h, er), pos, cannon) {
            if hit_correlated(h, hits, round_id, pos, cannon) {
                Tribool::No
            } else {
                if single {
                    Tribool::Maybe
                } else {
                    Tribool::Yes
                }
            }
        } else {
            Tribool::No
        }
    }
}

/// How one echo's verdict changes the registry: Yes confirms, a Maybe on a
/// position already under suspicion confirms, a first Maybe records the
/// suspicion, No changes nothing.
pub open spec fn process_echo_registry(reg: Seq<(Pos, bool)>, c: Tribool, p: Pos) -> Seq<
    (Pos, bool),
> {
    match c {
        Tribool::Yes => spec_register(reg, p),
        Tribool::Maybe => if reg_known(reg, p) {
            spec_register(reg, p)
        } else {
            spec_register_maybe(reg, p)
        },
        Tribool::No => reg,
    }
}

/// The registry after the first `i` events of the round have been sifted.
pub open spec fn reg_after(
    reg0: Seq<(Pos, bool)>,
    h: Seq<HistoryEntry>,
    bots: Seq<Bot>,
    cannon: int,
    round_id: int,
    hits: Seq<Event>,
    s: Seq<Event>,
    i: int,
) -> Seq<(Pos, bool)>
    decreases i,
{
    if i <= 0 {
        reg0
    } else {
        let prev = reg_after(reg0, h, bots, cannon, round_id, hits, s, i - 1);
        match s[i - 1] {
            Event::Echo { pos } => process_echo_registry(
                prev,
                spec_classify(prev, h, bots, cannon, round_id, pos, hits),
                pos,
            ),
            _ => prev,
        }
    }
}

/// The events kept after sifting: every event except echoes classified Yes
/// against the registry as it stood when they were reached.
pub open spec fn kept_after(
    reg0: Seq<(Pos, bool)>,
    h: Seq<HistoryEntry>,
    bots: Seq<Bot>,
    cannon: int,
    round_id: int,
    hits: Seq<Event>,
    s: Seq<Event>,
    i: int,
) -> Seq<Event>
    decreases i,
{
    if i <= 0 {
        Seq::empty()
    } else {
        let rest = kept_after(reg0, h, bots, cannon, round_id, hits, s, i - 1);
        let prev = reg_after(reg0, h, bots, cannon, round_id, hits, s, i - 1);
        match s[i - 1] {
            Event::Echo { pos } => if spec_classify(prev, h, bots, cannon, round_id, pos, hits)
                == Tribool::Yes {
                rest
            } else {
                rest.push(s[i - 1])
            },
            _ => rest.push(s[i - 1]),
        }
    }
}

/// A position that receives a second independent Maybe verdict with no
/// intervening correlated hit is promoted to a confirmed asteroid.
pub proof fn lemma_two_maybes_confirm(reg: Seq<(Pos, bool)>, p: Pos)
    ensures
        reg_confirmed(
            process_echo_registry(
                process_echo_registry(reg, Tribool::Maybe, p),
                Tribool::Maybe,
                p,
            ),
            p,
        ),
{
    let r1 = process_echo_registry(reg, Tribool::Maybe, p);
    if reg_known(reg, p) {
        lemma_register_props(reg, p);
        lemma_register_props(r1, p);
        if reg_known(r1, p) {
        } else {
        }
    } else {
        lemma_register_maybe_props(reg, p);
        lemma_register_props(r1, p);
    }
}

/// A position with a correlated hit this round is never classified Yes,
/// as long as it is not already a confirmed asteroid.
pub proof fn lemma_correlated_hit_never_yes(
    reg: Seq<(Pos, bool)>,
    h: Seq<HistoryEntry>,
    bots: Seq<Bot>,
    cannon: int,
    round_id: int,
    pos: Pos,
    hits: Seq<Event>,
)
    requires
        !reg_confirmed(reg, pos),
        hit_correlated(h, hits, round_id, pos, cannon),
    ensures
        spec_classify(reg, h, bots, cannon, round_id, pos, hits) != Tribool::Yes,
{
}

/// What a round's history entry may hold: positions the geometry can work
/// with, and references to bots only from our roster or the enemy's.
pub open spec fn entry_ok(e: HistoryEntry, field_radius: int) -> bool {
    &&& forall|j: int|
        0 <= j < e.events@.len() ==> dist(event_pos(#[trigger] e.events@[j]), spec_origo())
            <= field_radius
    &&& forall|j: int| 0 <= j < e.actions@.len() ==> pos_near_board((#[trigger] e.actions@[j]).pos)
    &&& forall|j: int|
        0 <= j < e.actions@.len() ==> ((#[trigger] e.actions@[j]).action_type == ActionKind::Cannon
            ==> dist(e.actions@[j].pos, spec_origo()) <= field_radius)
    &&& forall|j: int|
        0 <= j < e.decision.unused_echoes@.len() ==> dist(
            #[trigger] e.decision.unused_echoes@[j],
            spec_origo(),
        ) <= field_radius
    &&& e.decision.target is Some ==> pos_near_board(e.decision.target->0)
}

/// Stored events about our own bots reference bots on the roster.
pub open spec fn entry_refs_ok(e: HistoryEntry, bots: Seq<Bot>) -> bool {
    forall|j: int|
        0 <= j < e.events@.len() ==> match #[trigger] e.events@[j] {
            Event::Detected { bot_id } => is_our_bot_spec(bots, bot_id),
            Event::Damaged { bot_id, .. } => is_our_bot_spec(bots, bot_id),
            Event::Move { bot_id, .. } => is_our_bot_spec(bots, bot_id),
            _ => true,
        }
}

/// The engine's invariant between pipeline stages.
pub open spec fn ai_wf(a: Ai) -> bool {
    &&& config_wf(a.config)
    &&& history_wf(a.history@)
    &&& a.history@.len() <= 32766
    &&& bot_ids_distinct(a.bots@)
    &&& a.bots@.len() <= 1000
    &&& forall|i: int|
        0 <= i < a.bots@.len() ==> dist((#[trigger] a.bots@[i]).pos, spec_origo())
            <= a.config.field_radius
    &&& forall|i: int|
        0 <= i < a.history@.len() ==> entry_ok(#[trigger] a.history@[i], a.config.field_radius as int)
    &&& forall|i: int| 0 <= i < a.history@.len() ==> entry_refs_ok(#[trigger] a.history@[i], a.bots@)
    &&& a.radar_positions@.len() >= 1
    &&& forall|i: int|
        0 <= i < a.radar_positions@.len() ==> pos_near_board(#[trigger] a.radar_positions@[i])
}

/// Every event kept by the sifting comes from the round's input.
pub proof fn lemma_kept_after_subset(
    reg0: Seq<(Pos, bool)>,
    h: Seq<HistoryEntry>,
    bots: Seq<Bot>,
    cannon: int,
    round_id: int,
    hits: Seq<Event>,
    s: Seq<Event>,
    i: int,
)
    requires
        0 <= i <= s.len(),
    ensures
        forall|m: int|
            0 <= m < kept_after(reg0, h, bots, cannon, round_id, hits, s, i).len() ==> exists|j: int|
                0 <= j < s.len() && #[trigger] kept_after(
                    reg0,
                    h,
                    bots,
                    cannon,
                    round_id,
                    hits,
                    s,
                    i,
                )[m] == s[j],
    decreases i,
{
    if i > 0 {
        lemma_kept_after_subset(reg0, h, bots, cannon, round_id, hits, s, i - 1);
        let f = kept_after(reg0, h, bots, cannon, round_id, hits, s, i);
        let fr = kept_after(reg0, h, bots, cannon, round_id, hits, s, i - 1);
        assert forall|m: int| 0 <= m < f.len() implies exists|j: int|
            0 <= j < s.len() && #[trigger] f[m] == s[j] by {
            if m < fr.len() {
                assert(f[m] == fr[m]);
                let j = choose|j: int| 0 <= j < s.len() && #[trigger] fr[m] == s[j];
            } else {
                assert(f[m] == s[i - 1]);
            }
        }
    }
}

/// Every event the relevance filter keeps comes from the input.
pub proof fn lemma_filter_relevant_subset(s: Seq<Event>)
    ensures
        forall|m: int|
            0 <= m < crate::lists::filter_relevant_spec(s).len() ==> exists|j: int|
                0 <= j < s.len() && #[trigger] crate::lists::filter_relevant_spec(s)[m] == s[j],
    decreases s.len(),
{
    if s.len() > 0 {
        lemma_filter_relevant_subset(s.drop_last());
        let f = crate::lists::filter_relevant_spec(s);
        let fr = crate::lists::filter_relevant_spec(s.drop_last());
        assert forall|m: int| 0 <= m < f.len() implies exists|j: int|
            0 <= j < s.len() && #[trigger] f[m] == s[j] by {
            if m < fr.len() {
                assert(f[m] == fr[m]);
                let j = choose|j: int|
                    0 <= j < s.drop_last().len() && #[trigger] fr[m] == s.drop_last()[j];
                assert(f[m] == s[j]);
            } else {
                assert(f[m] == s[s.len() - 1]);
            }
        }
    }
}

/// The parsed view of a round's raw records.
pub open spec fn parsed_events(raw: Seq<crate::defs::RawEvent>) -> Seq<Event> {
    raw.map(|i: int, r: crate::defs::RawEvent| crate::defs::spec_parse_event(r))
}

/// Builds the roster from the match start message.
pub fn gen_bots(start: &crate::defs::Start) -> (res: Vec<Bot>)
    requires
        forall|i: int|
            0 <= i < start.you.bots@.len() ==> (#[trigger] start.you.bots@[i]).pos is Some
                && start.you.bots@[i].hp is Some,
    ensures
        res@.len() == start.you.bots@.len(),
        forall|i: int|
            0 <= i < res@.len() ==> (#[trigger] res@[i]) == (Bot {
                id: start.you.bots@[i].bot_id,
                alive: start.you.bots@[i].alive,
                pos: start.you.bots@[i].pos->0,
                hp: start.you.bots@[i].hp->0,
            }),
{
    let mut res: Vec<Bot> = Vec::new();
    let mut i: usize = 0;
    while i < start.you.bots.len()
        invariant
            0 <= i <= start.you.bots@.len(),
            res@.len() == i,
            forall|k: int|
                0 <= k < i ==> (#[trigger] res@[k]) == (Bot {
                    id: start.you.bots@[k].bot_id,
                    alive: start.you.bots@[k].alive,
                    pos: start.you.bots@[k].pos->0,
                    hp: start.you.bots@[k].hp->0,
                }),
        decreases start.you.bots@.len() - i,
    {
        res.push(Bot::new(&start.you.bots[i]));
        i = i + 1;
    }
    res
}

/// What the caller must promise of a match start message.
pub open spec fn start_wf(start: crate::defs::Start) -> bool {
    &&& config_wf(start.config)
    &&& start.you.bots@.len() <= 1000
    &&& forall|i: int|
        0 <= i < start.you.bots@.len() ==> (#[trigger] start.you.bots@[i]).pos is Some
            && start.you.bots@[i].hp is Some && dist(start.you.bots@[i].pos->0, spec_origo())
            <= start.config.field_radius
    &&& forall|i: int, j: int|
        0 <= i < j < start.you.bots@.len() ==> (#[trigger] start.you.bots@[i]).bot_id != (
        #[trigger] start.you.bots@[j]).bot_id
}

impl Ai {
    /// A fresh engine for a match: the roster from the start message, an
    /// empty history and registry, the radar sweep precomputed, and the
    /// random source seeded.
    pub fn new(start: &crate::defs::Start, seed: u64) -> (a: Ai)
        requires
            start_wf(*start),
        ensures
            ai_wf(a),
            a.round_id == -1,
            a.radar_index == 0,
            a.history@.len() == 0,
            a.asteroids@.len() == 0,
            a.config == start.config,
            a.bots@.len() == start.you.bots@.len(),
            forall|i: int|
                0 <= i < a.bots@.len() ==> (#[trigger] a.bots@[i]) == (Bot {
                    id: start.you.bots@[i].bot_id,
                    alive: start.you.bots@[i].alive,
                    pos: start.you.bots@[i].pos->0,
                    hp: start.you.bots@[i].hp->0,
                }),
            a.radar_positions@ == spec_radar_positions(start.config.field_radius, start.config.radar),
    {
        let mut radar: Radar = Radar::new();
        let radar_positions = radar.get_radar_positions(&start.config);
        Ai {
            bots: gen_bots(start),
            round_id: -1,
            radar_index: 0,
            radar_positions,
            history: Vec::new(),
            asteroids: Vec::new(),
            config: start.config,
            rng: GameRng::new(seed),
        }
    }

    /// The roster entry with this id, if any.
    pub(crate) fn get_bot(&self, id: i16) -> (r: Option<&Bot>)
        ensures
            r is Some <==> find_bot_idx(self.bots@, id) >= 0,
            r is Some ==> *r->0 == self.bots@[find_bot_idx(self.bots@, id)],
    {
        proof {
            lemma_find_bot_idx(self.bots@, id);
        }
        let mut i: usize = 0;
        while i < self.bots.len()
            invariant
                0 <= i <= self.bots@.len(),
                forall|k: int| 0 <= k < i ==> (#[trigger] self.bots@[k]).id != id,
            decreases self.bots@.len() - i,
        {
            if self.bots[i].id == id {
                proof {
                    let f = find_bot_idx(self.bots@, id);
                    assert(self.bots@[i as int].id == id);
                    if f == -1 {
                        assert(false);
                    }
                    if f < i as int {
                        assert(self.bots@[f].id == id);
                        assert(false);
                    }
                    if f > i as int {
                        assert(false);
                    }
                }
                return Some(&self.bots[i]);
            }
            i = i + 1;
        }
        proof {
            if find_bot_idx(self.bots@, id) >= 0 {
                assert(self.bots@[find_bot_idx(self.bots@, id)].id == id);
                assert(false);
            }
        }
        None
    }

    /// The index of the roster entry with this id, if any.
    pub(crate) fn get_bot_index(&self, id: i16) -> (r: Option<usize>)
        ensures
            r is Some <==> find_bot_idx(self.bots@, id) >= 0,
            r is Some ==> r->0 == find_bot_idx(self.bots@, id),
    {
        proof {
            lemma_find_bot_idx(self.bots@, id);
        }
        let mut i: usize = 0;
        while i < self.bots.len()
            invariant
                0 <= i <= self.bots@.len(),
                forall|k: int| 0 <= k < i ==> (#[trigger] self.bots@[k]).id != id,
            decreases self.bots@.len() - i,
        {
            if self.bots[i].id == id {
                proof {
                    let f = find_bot_idx(self.bots@, id);
                    assert(self.bots@[i as int].id == id);
                    if f == -1 {
                        assert(false);
                    }
                    if f < i as int {
                        assert(self.bots@[f].id == id);
                        assert(false);
                    }
                    if f > i as int {
                        assert(false);
                    }
                }
                return Some(i);
            }
            i = i + 1;
        }
        proof {
            if find_bot_idx(self.bots@, id) >= 0 {
                assert(self.bots@[find_bot_idx(self.bots@, id)].id == id);
                assert(false);
            }
        }
        None
    }

    /// Whether the id names one of our bots.
    pub fn is_our_bot(&self, bot_id: i16) -> (r: bool)
        ensures
            r == is_our_bot_spec(self.bots@, bot_id),
    {
        proof {
            lemma_find_bot_idx(self.bots@, bot_id);
        }
        match self.get_bot(bot_id) {
            Some(_) => true,
            None => false,
        }
    }

    /// How many of our bots are alive.
    pub(crate) fn bots_alive(&self) -> (n: usize)
        ensures
            n == bots_alive_spec(self.bots@),
    {
        let mut n: usize = 0;
        let mut i: usize = 0;
        while i < self.bots.len()
            invariant
                0 <= i <= self.bots@.len(),
                n <= i,
                n == bots_alive_spec(self.bots@.take(i as int)),
            decreases self.bots@.len() - i,
        {
            proof {
                assert(self.bots@.take(i as int + 1).drop_last() =~= self.bots@.take(i as int));
                assert(self.bots@.take(i as int + 1).last() == self.bots@[i as int]);
            }
            if self.bots[i].alive {
                n = n + 1;
            }
            i = i + 1;
        }
        proof {
            assert(self.bots@.take(self.bots@.len() as int) =~= self.bots@);
        }
        n
    }

    /// The living bots, in roster order.
    pub fn get_live_bots(&self) -> (res: Vec<Bot>)
        ensures
            res@ == live_bots_spec(self.bots@),
    {
        let mut res: Vec<Bot> = Vec::new();
        let mut i: usize = 0;
        while i < self.bots.len()
            invariant
                0 <= i <= self.bots@.len(),
                res@ == live_bots_spec(self.bots@.take(i as int)),
            decreases self.bots@.len() - i,
        {
            proof {
                assert(self.bots@.take(i as int + 1).drop_last() =~= self.bots@.take(i as int));
                assert(self.bots@.take(i as int + 1).last() == self.bots@[i as int]);
            }
            if self.bots[i].alive {
                res.push(self.bots[i]);
            }
            i = i + 1;
        }
        proof {
            assert(self.bots@.take(self.bots@.len() as int) =~= self.bots@);
        }
        res
    }

    /// Whether any of the given cannon positions covers `pos` within blast
    /// distance.
    pub(crate) fn is_pos_in_cannon_actions(&self, pos: Pos, cannon_positions: &Vec<Pos>) -> (r:
        bool)
        requires
            pos_in_range(pos),
            forall|i: int|
                0 <= i < cannon_positions@.len() ==> pos_in_range(#[trigger] cannon_positions@[i]),
        ensures
            r == in_blast(cannon_positions@, pos, self.config.cannon as int),
    {
        let mut i: usize = 0;
        while i < cannon_positions.len()
            invariant
                0 <= i <= cannon_positions@.len(),
                forall|k: int|
                    0 <= k < i ==> !(dist(#[trigger] cannon_positions@[k], pos)
                        <= self.config.cannon),
            decreases cannon_positions@.len() - i,
        {
            if cannon_positions[i].distance(pos) <= self.config.cannon {
                proof {
                    assert(dist(cannon_positions@[i as int], pos) <= self.config.cannon);
                }
                return true;
            }
            i = i + 1;
        }
        false
    }

    /// Applies a round's events to the roster: deaths, damage and
    /// movement, in event order.
    pub(crate) fn update_state(&mut self, events: &Vec<Event>)
        requires
            ai_wf(*old(self)),
            events_input_wf(events@, old(self).bots@, old(self).config.field_radius as int),
        ensures
            ai_wf(*final(self)),
            final(self).bots@ == bots_after(old(self).bots@, events@, events@.len() as int),
            final(self).bots@.len() == old(self).bots@.len(),
            forall|k: int|
                0 <= k < old(self).bots@.len() ==> (#[trigger] final(self).bots@[k]).id == old(
                    self,
                ).bots@[k].id,
            final(self).history == old(self).history,
            final(self).asteroids == old(self).asteroids,
            final(self).config == old(self).config,
            final(self).round_id == old(self).round_id,
            final(self).radar_index == old(self).radar_index,
            final(self).radar_positions == old(self).radar_positions,
            final(self).rng == old(self).rng,
    {
        let ghost orig_bots = self.bots@;
        let mut i: usize = 0;
        while i < events.len()
            invariant
                0 <= i <= events@.len(),
                self.bots@ == bots_after(orig_bots, events@, i as int),
                self.bots@.len() == orig_bots.len(),
                forall|k: int|
                    0 <= k < orig_bots.len() ==> (#[trigger] self.bots@[k]).id == orig_bots[k].id,
                self.history == old(self).history,
                self.asteroids == old(self).asteroids,
                self.config == old(self).config,
                self.round_id == old(self).round_id,
                self.radar_index == old(self).radar_index,
                self.radar_positions == old(self).radar_positions,
                self.rng == old(self).rng,
            decreases events@.len() - i,
        {
            let e = events[i];
            proof {
                assert(events@[i as int] == e);
            }
            match e {
                Event::Die { bot_id } => {
                    match self.get_bot_index(bot_id) {
                        Some(k) => {
                            proof {
                                lemma_find_bot_idx(self.bots@, bot_id);
                            }
                            let b = self.bots[k];
                            self.bots[k] = Bot { id: b.id, alive: false, pos: b.pos, hp: b.hp };
                        },
                        None => {},
                    }
                },
                Event::Damaged { bot_id, damage } => {
                    match self.get_bot_index(bot_id) {
                        Some(k) => {
                            proof {
                                lemma_find_bot_idx(self.bots@, bot_id);
                            }
                            let b = self.bots[k];
                            let nh: i32 = b.hp as i32 - damage as i32;
                            let hp: i16 = if nh < -32768 {
                                -32768
                            } else if nh > 32767 {
                                32767
                            } else {
                                nh as i16
                            };
                            self.bots[k] = Bot { id: b.id, alive: b.alive, pos: b.pos, hp };
                        },
                        None => {},
                    }
                },
                Event::Move { bot_id, pos } => {
                    match self.get_bot_index(bot_id) {
                        Some(k) => {
                            proof {
                                lemma_find_bot_idx(self.bots@, bot_id);
                            }
                            let b = self.bots[k];
                            self.bots[k] = Bot { id: b.id, alive: b.alive, pos, hp: b.hp };
                        },
                        None => {},
                    }
                },
                _ => {},
            }
            i = i + 1;
        }
        proof {
            lemma_bots_after_ok(orig_bots, events@, events@.len() as int, old(
                self,
            ).config.field_radius as int);
            assert forall|k: int|
                0 <= k < self.history@.len() implies entry_refs_ok(
                #[trigger] self.history@[k],
                self.bots@,
            ) by {
                assert(entry_refs_ok(old(self).history@[k], orig_bots));
                assert forall|id: i16|
                    is_our_bot_spec(orig_bots, id) implies is_our_bot_spec(self.bots@, id) by {
                    let m = choose|m: int|
                        0 <= m < orig_bots.len() && (#[trigger] orig_bots[m]).id == id;
                    assert(self.bots@[m].id == id);
                }
            }
        }
    }

    /// Whether some hit of the round traces to a cannon position within
    /// blast distance of `pos`.
    pub(crate) fn is_in_hit_events(&self, pos: Pos, hit_events: &Vec<Event>) -> (r: bool)
        requires
            ai_wf(*self),
            pos_in_range(pos),
        ensures
            r == hit_correlated(
                self.history@,
                hit_events@,
                self.round_id as int,
                pos,
                self.config.cannon as int,
            ),
    {
        let mut i: usize = 0;
        while i < hit_events.len()
            invariant
                0 <= i <= hit_events@.len(),
                forall|k: int|
                    0 <= k < i ==> !(spec_pos_from_hit(
                        self.history@,
                        #[trigger] hit_events@[k],
                        self.round_id as int,
                    ) is Some && dist(
                        spec_pos_from_hit(self.history@, hit_events@[k], self.round_id as int)->0,
                        pos,
                    ) <= self.config.cannon),
            decreases hit_events@.len() - i,
        {
            let ev = hit_events[i];
            proof {
                assert(hit_events@[i as int] == ev);
            }
            match self.get_pos_from_hit(&ev, self.round_id) {
                Some(hit_pos) => {
                    if hit_pos.distance(pos) <= self.config.cannon {
                        return true;
                    }
                },
                None => {},
            }
            i = i + 1;
        }
        false
    }

    /// The classifier's verdict on an echo at `pos`, against the current
    /// registry, roster and history.
    pub(crate) fn is_echo_an_asteroid(&self, pos: Pos, hit_events: &Vec<Event>) -> (r: Tribool)
        requires
            ai_wf(*self),
            pos_in_range(pos),
        ensures
            r == spec_classify(
                self.asteroids@,
                self.history@,
                self.bots@,
                self.config.cannon as int,
                self.round_id as int,
                pos,
                hit_events@,
            ),
    {
        if self.asteroids.is_asteroid(pos) {
            return Tribool::Yes;
        }
        let single = self.bots_alive() == 1;
        let er: i32 = if single {
            self.round_id as i32 - 2
        } else {
            self.round_id as i32 - 1
        };
        let mut cannon_positions: Vec<Pos> = Vec::new();
        if er >= 0 && (er as usize) < self.history.len() {
            let cannons = self.history.get_actions_for_round(Some(ActionKind::Cannon), er as i16);
            proof {
                crate::lists::lemma_actions_of_kind_subset(
                    self.history@[er as int].actions@,
                    Some(ActionKind::Cannon),
                );
            }
            let mut j: usize = 0;
            while j < cannons.len()
                invariant
                    0 <= j <= cannons@.len(),
                    cannon_positions@ == action_positions(cannons@.take(j as int)),
                    forall|m: int|
                        0 <= m < cannons@.len() ==> exists|j2: int|
                            0 <= j2 < self.history@[er as int].actions@.len()
                                && #[trigger] cannons@[m] == self.history@[er as int].actions@[j2],
                    forall|m: int|
                        0 <= m < cannon_positions@.len() ==> pos_in_range(
                            #[trigger] cannon_positions@[m],
                        ),
                decreases cannons@.len() - j,
            {
                let a = cannons[j];
                proof {
                    assert(cannons@[j as int] == a);
                    let j2 = choose|j2: int|
                        0 <= j2 < self.history@[er as int].actions@.len()
                            && #[trigger] cannons@[j as int]
                            == self.history@[er as int].actions@[j2];
                    assert(entry_ok(self.history@[er as int], self.config.field_radius as int));
                    assert(pos_near_board(a.pos));
                }
                cannon_positions.push(a.pos);
                proof {
                    assert(cannon_positions@ =~= action_positions(cannons@.take(j as int + 1)));
                }
                j = j + 1;
            }
            proof {
                assert(cannons@.take(cannons@.len() as int) =~= cannons@);
            }
        }
        proof {
            assert(cannon_positions@ == cannon_evidence(self.history@, er as int));
            assert(er as int == if single {
                self.round_id - 2
            } else {
                self.round_id - 1
            });
        }
        if self.is_pos_in_cannon_actions(pos, &cannon_positions) {
            if self.is_in_hit_events(pos, hit_events) {
                Tribool::No
            } else {
                if single {
                    Tribool::Maybe
                } else {
                    Tribool::Yes
                }
            }
        } else {
            Tribool::No
        }
    }

    /// Sifts a round's events through the classifier: confirmed-asteroid
    /// echoes are recorded and stripped, suspicions are recorded, and the
    /// rest of the events pass through unchanged.
    pub(crate) fn filter_asteroids_from_events(&mut self, events: &Vec<Event>) -> (res: Vec<Event>)
        requires
            ai_wf(*old(self)),
            events_input_wf(events@, old(self).bots@, old(self).config.field_radius as int),
        ensures
            ai_wf(*final(self)),
            final(self).bots == old(self).bots,
            final(self).round_id == old(self).round_id,
            final(self).radar_index == old(self).radar_index,
            final(self).radar_positions == old(self).radar_positions,
            final(self).history == old(self).history,
            final(self).config == old(self).config,
            final(self).rng == old(self).rng,
            final(self).asteroids@ == reg_after(
                old(self).asteroids@,
                old(self).history@,
                old(self).bots@,
                old(self).config.cannon as int,
                old(self).round_id as int,
                events_of_kind(events@, EventKind::Hit),
                events@,
                events@.len() as int,
            ),
            res@ == kept_after(
                old(self).asteroids@,
                old(self).history@,
                old(self).bots@,
                old(self).config.cannon as int,
                old(self).round_id as int,
                events_of_kind(events@, EventKind::Hit),
                events@,
                events@.len() as int,
            ),
    {
        let mut hit_events: Vec<Event> = Vec::new();
        let mut i: usize = 0;
        while i < events.len()
            invariant
                0 <= i <= events@.len(),
                hit_events@ == events_of_kind(events@.take(i as int), EventKind::Hit),
            decreases events@.len() - i,
        {
            let e = events[i];
            proof {
                assert(events@.take(i as int + 1).drop_last() =~= events@.take(i as int));
                assert(events@.take(i as int + 1).last() == events@[i as int]);
            }
            match e.kind() {
                EventKind::Hit => {
                    hit_events.push(e);
                },
                _ => {},
            }
            i = i + 1;
        }
        proof {
            assert(events@.take(events@.len() as int) =~= events@);
        }
        let ghost hits = events_of_kind(events@, EventKind::Hit);
        let ghost reg0 = self.asteroids@;
        let mut kept: Vec<Event> = Vec::new();
        let mut i: usize = 0;
        while i < events.len()
            invariant
                0 <= i <= events@.len(),
                hit_events@ == hits,
                self.bots == old(self).bots,
                self.round_id == old(self).round_id,
                self.radar_index == old(self).radar_index,
                self.radar_positions == old(self).radar_positions,
                self.history == old(self).history,
                self.config == old(self).config,
                self.rng == old(self).rng,
                ai_wf(*self),
                self.asteroids@ == reg_after(
                    reg0,
                    old(self).history@,
                    old(self).bots@,
                    old(self).config.cannon as int,
                    old(self).round_id as int,
                    hits,
                    events@,
                    i as int,
                ),
                kept@ == kept_after(
                    reg0,
                    old(self).history@,
                    old(self).bots@,
                    old(self).config.cannon as int,
                    old(self).round_id as int,
                    hits,
                    events@,
                    i as int,
                ),
            decreases events@.len() - i,
        {
            let e = events[i];
            proof {
                assert(events@[i as int] == e);
            }
            match e {
                Event::Echo { pos } => {
                    proof {
                        assert(dist(pos, spec_origo()) <= self.config.field_radius);
                        assert(crate::position::abs_int(pos.x as int) <= dist(pos, spec_origo()));
                        assert(crate::position::abs_int(pos.y as int) <= dist(pos, spec_origo()));
                    }
                    let is_asteroid_now = self.is_echo_an_asteroid(pos, &hit_events);
                    match is_asteroid_now {
                        Tribool::Yes => {
                            self.asteroids.register(pos);
                        },
                        Tribool::Maybe => {
                            if self.asteroids.is_maybe_asteroid(pos) {
                                self.asteroids.register(pos);
                            } else {
                                self.asteroids.register_maybe(pos);
                            }
                        },
                        Tribool::No => {},
                    }
                    let keep = match is_asteroid_now {
                        Tribool::Yes => false,
                        _ => true,
                    };
                    if keep {
                        kept.push(e);
                    }
                },
                _ => {
                    kept.push(e);
                },
            }
            i = i + 1;
        }
        kept
    }

    /// One round's decisions: the attack ladder, then scanning for
    /// whatever is idle, then the evasion overlay on top; no-op entries
    /// are dropped from the returned actions.
    #[verifier::rlimit(100)]
    pub fn make_decisions(&mut self) -> (r: (Decision, Vec<Action>))
        requires
            crate::attack::decisions_pre(*old(self)),
        ensures
            ai_wf(*final(self)),
            crate::attack::decisions_pre(*final(self)),
            final(self).bots == old(self).bots,
            final(self).round_id == old(self).round_id,
            final(self).radar_positions == old(self).radar_positions,
            final(self).history == old(self).history,
            final(self).asteroids == old(self).asteroids,
            final(self).config == old(self).config,
            ({
                let o = crate::attack::ladder_outcome(
                    old(self).history@,
                    old(self).bots@,
                    old(self).asteroids@,
                    old(self).round_id as int,
                );
                &&& r.0.mode == if o is Some {
                    ActionMode::Attack
                } else {
                    ActionMode::Scan
                }
                &&& (o is Some ==> {
                    let tu = o->0;
                    r.0.target == Some(tu.0) && r.0.unused_echoes@ == tu.1 && dist(
                        tu.0,
                        spec_origo(),
                    ) <= old(self).config.field_radius && forall|j: int|
                        0 <= j < tu.1.len() ==> dist(#[trigger] tu.1[j], spec_origo()) <= old(
                            self,
                        ).config.field_radius
                })
                &&& (o is None ==> r.0.target is None && r.0.unused_echoes@ == Seq::<Pos>::empty())
            }),
            forall|j: int|
                0 <= j < r.1@.len() ==> (#[trigger] r.1@[j]).action_type != ActionKind::Noaction
                    && pos_near_board(r.1@[j].pos) && (r.1@[j].action_type == ActionKind::Cannon
                    ==> dist(r.1@[j].pos, spec_origo()) <= old(self).config.field_radius),
            forall|m1: int, m2: int|
                0 <= m1 < m2 < r.1@.len() ==> r.1@[m1].bot_id != r.1@[m2].bot_id,
            forall|m: int|
                #![trigger r.1@[m]]
                0 <= m < r.1@.len() ==> exists|i: int|
                    0 <= i < old(self).bots@.len() && (#[trigger] old(self).bots@[i]).alive && old(
                        self,
                    ).bots@[i].id == r.1@[m].bot_id,
            (crate::attack::ladder_outcome(
                old(self).history@,
                old(self).bots@,
                old(self).asteroids@,
                old(self).round_id as int,
            ) is None && unused_desc(
                old(self).history@,
                old(self).history@.len() - 50,
                old(self).history@.len() as int,
            ).len() == 0) ==> forall|i: int|
                0 <= i < old(self).bots@.len() && (#[trigger] old(self).bots@[i]).alive
                    ==> exists|m: int|
                    0 <= m < r.1@.len() && (#[trigger] r.1@[m]).bot_id == old(self).bots@[i].id,
    {
        let mut actions = <Vec<Action> as ActionsList>::populate(&self.bots);
        let ghost acts0 = actions@;
        proof {
            assert forall|i: int|
                0 <= i < self.bots@.len() implies crate::lists::find_action_idx(
                actions@,
                (#[trigger] self.bots@[i]).id,
            ) >= 0 by {
                crate::lists::lemma_find_action_idx(actions@, self.bots@[i].id);
                if crate::lists::find_action_idx(actions@, self.bots@[i].id) == -1 {
                    assert(actions@[i].bot_id == self.bots@[i].id);
                    assert(false);
                }
            }
        }
        let mut decision = Decision::with_defaults();
        let _attacked = self.aggressive_attack_strategy(&mut actions, &mut decision);
        let ghost acts1 = actions@;
        let scanning = match decision.mode {
            ActionMode::Attack => false,
            _ => true,
        };
        if scanning {
            self.scan_with_idle_bots(&mut actions, &mut decision);
        }
        let ghost acts2 = actions@;
        // the evasion overlay runs last, overriding any scan or attack
        // order the affected bots already hold
        self.evade_if_needed(&mut actions);
        proof {
            assert forall|j: int|
                0 <= j < actions@.len() && #[trigger] actions@[j] != acts0[j] implies pos_near_board(
                actions@[j].pos,
            ) && (actions@[j].action_type == ActionKind::Cannon ==> dist(
                actions@[j].pos,
                spec_origo(),
            ) <= old(self).config.field_radius) && actions@[j].action_type
                != ActionKind::Noaction by {
                if actions@[j] == acts2[j] {
                    if actions@[j] == acts1[j] {
                    } else {
                    }
                } else {
                }
            }
            assert forall|j: int|
                0 <= j < actions@.len() implies (#[trigger] actions@[j]).bot_id
                == acts0[j].bot_id by {
            }
            assert forall|j: int|
                0 <= j < actions@.len() && #[trigger] actions@[j] != acts0[j] implies exists|i: int|
                0 <= i < old(self).bots@.len() && (#[trigger] old(self).bots@[i]).alive && old(
                self,
            ).bots@[i].id == actions@[j].bot_id by {
                if actions@[j] != acts2[j] {
                } else {
                    if acts2[j] != acts1[j] {
                        let i = choose|i: int|
                            0 <= i < old(self).bots@.len() && (#[trigger] old(self).bots@[i]).alive
                                && old(self).bots@[i].id == acts2[j].bot_id;
                        assert(actions@[j].bot_id == acts2[j].bot_id);
                    } else {
                        assert(acts1[j] != acts0[j]);
                        let i = choose|i: int|
                            0 <= i < old(self).bots@.len() && (#[trigger] old(self).bots@[i]).alive
                                && old(self).bots@[i].id == acts1[j].bot_id;
                        assert(actions@[j].bot_id == acts1[j].bot_id);
                    }
                }
            }
        }
        let mut out: Vec<Action> = Vec::new();
        let mut j: usize = 0;
        while j < actions.len()
            invariant
                0 <= j <= actions@.len(),
                forall|m: int|
                    0 <= m < out@.len() ==> (#[trigger] out@[m]).action_type != ActionKind::Noaction
                        && pos_near_board(out@[m].pos) && (out@[m].action_type
                        == ActionKind::Cannon ==> dist(out@[m].pos, spec_origo()) <= old(
                        self,
                    ).config.field_radius),
                forall|m: int|
                    0 <= m < actions@.len() && #[trigger] actions@[m] != acts0[m]
                        ==> pos_near_board(actions@[m].pos) && (actions@[m].action_type
                        == ActionKind::Cannon ==> dist(actions@[m].pos, spec_origo()) <= old(
                        self,
                    ).config.field_radius),
                forall|m: int|
                    0 <= m < acts0.len() ==> (#[trigger] acts0[m]).action_type
                        == ActionKind::Noaction,
                actions@.len() == acts0.len(),
                acts0.len() == old(self).bots@.len(),
                forall|m: int|
                    0 <= m < actions@.len() ==> (#[trigger] actions@[m]).bot_id == acts0[m].bot_id,
                forall|m: int|
                    0 <= m < acts0.len() ==> (#[trigger] acts0[m]).bot_id == old(self).bots@[m].id,
                forall|m: int|
                    0 <= m < actions@.len() && #[trigger] actions@[m] != acts0[m] ==> exists|i: int|
                        0 <= i < old(self).bots@.len() && (#[trigger] old(self).bots@[i]).alive
                            && old(self).bots@[i].id == actions@[m].bot_id,
                forall|m: int|
                    #![trigger out@[m]]
                    0 <= m < out@.len() ==> exists|i: int|
                        0 <= i < j && #[trigger] old(self).bots@[i].id == out@[m].bot_id,
                forall|m1: int, m2: int|
                    0 <= m1 < m2 < out@.len() ==> out@[m1].bot_id != out@[m2].bot_id,
                forall|m: int|
                    #![trigger out@[m]]
                    0 <= m < out@.len() ==> exists|i: int|
                        0 <= i < old(self).bots@.len() && (#[trigger] old(self).bots@[i]).alive
                            && old(self).bots@[i].id == out@[m].bot_id,
                forall|i2: int|
                    0 <= i2 < j && #[trigger] actions@[i2] != acts0[i2] ==> exists|m: int|
                        0 <= m < out@.len() && (#[trigger] out@[m]).bot_id == acts0[i2].bot_id,
            decreases actions@.len() - j,
        {
            let a = actions[j];
            proof {
                assert(actions@[j as int] == a);
            }
            let keep = match a.action_type {
                ActionKind::Noaction => false,
                _ => true,
            };
            if keep {
                proof {
                    assert(actions@[j as int] != acts0[j as int]);
                }
                let ghost prev_out = out@;
                out.push(a);
                proof {
                    assert(out@[out@.len() - 1] == a);
                    assert(a.bot_id == old(self).bots@[j as int].id);
                    assert forall|m: int| #![trigger out@[m]] 0 <= m < out@.len() implies exists|
                        i: int,
                    |
                        0 <= i < j + 1 && #[trigger] old(self).bots@[i].id == out@[m].bot_id by {
                        if m < prev_out.len() {
                            assert(out@[m] == prev_out[m]);
                            let i = choose|i: int|
                                0 <= i < j && #[trigger] old(self).bots@[i].id
                                    == prev_out[m].bot_id;
                        } else {
                            assert(out@[m].bot_id == old(self).bots@[j as int].id);
                        }
                    }
                    assert forall|m1: int, m2: int|
                        0 <= m1 < m2 < out@.len() implies out@[m1].bot_id != out@[m2].bot_id by {
                        if m2 < prev_out.len() {
                            assert(out@[m1] == prev_out[m1] && out@[m2] == prev_out[m2]);
                        } else {
                            assert(out@[m2].bot_id == old(self).bots@[j as int].id);
                            assert(out@[m1] == prev_out[m1]);
                            let i = choose|i: int|
                                0 <= i < j && #[trigger] old(self).bots@[i].id
                                    == prev_out[m1].bot_id;
                            assert(old(self).bots@[i].id != old(self).bots@[j as int].id);
                        }
                    }
                    assert forall|m: int| #![trigger out@[m]] 0 <= m < out@.len() implies exists|
                        i: int,
                    |
                        0 <= i < old(self).bots@.len() && (#[trigger] old(self).bots@[i]).alive
                            && old(self).bots@[i].id == out@[m].bot_id by {
                        if m < prev_out.len() {
                            assert(out@[m] == prev_out[m]);
                            let i = choose|i: int|
                                0 <= i < old(self).bots@.len() && (#[trigger] old(
                                    self,
                                ).bots@[i]).alive && old(self).bots@[i].id == prev_out[m].bot_id;
                        } else {
                            let i = choose|i: int|
                                0 <= i < old(self).bots@.len() && (#[trigger] old(
                                    self,
                                ).bots@[i]).alive && old(self).bots@[i].id == actions@[j as int].bot_id;
                        }
                    }
                    assert forall|i2: int|
                        0 <= i2 < j + 1 && #[trigger] actions@[i2] != acts0[i2] implies exists|
                        m: int,
                    |
                        0 <= m < out@.len() && (#[trigger] out@[m]).bot_id == acts0[i2].bot_id by {
                        if i2 == j as int {
                            assert(out@[out@.len() - 1].bot_id == acts0[i2].bot_id);
                        } else {
                            let m = choose|m: int|
                                0 <= m < prev_out.len() && (#[trigger] prev_out[m]).bot_id
                                    == acts0[i2].bot_id;
                            assert(out@[m].bot_id == acts0[i2].bot_id);
                        }
                    }
                }
            } else {
                proof {
                    assert(actions@[j as int] == acts0[j as int]);
                }
            }
            j = j + 1;
        }
        proof {
            let o = crate::attack::ladder_outcome(
                old(self).history@,
                old(self).bots@,
                old(self).asteroids@,
                old(self).round_id as int,
            );
            let u = unused_desc(
                old(self).history@,
                old(self).history@.len() - 50,
                old(self).history@.len() as int,
            );
            if o is None && u.len() == 0 {
                assert(acts1 == acts0);
                assert forall|i: int|
                    0 <= i < old(self).bots@.len() implies #[trigger] find_action_idx(
                    acts0,
                    old(self).bots@[i].id,
                ) == i by {
                    crate::lists::lemma_find_action_idx(acts0, old(self).bots@[i].id);
                    let fidx = find_action_idx(acts0, old(self).bots@[i].id);
                    if fidx < i {
                        assert(acts0[fidx].bot_id == old(self).bots@[fidx].id);
                        assert(false);
                    }
                    if fidx > i {
                        assert(acts0[i].bot_id == old(self).bots@[i].id);
                        assert(false);
                    }
                }
                crate::scan::lemma_idle_covers_live(old(self).bots@, acts0);
                assert forall|i: int|
                    0 <= i < old(self).bots@.len() && (#[trigger] old(
                        self,
                    ).bots@[i]).alive implies exists|m: int|
                    0 <= m < out@.len() && (#[trigger] out@[m]).bot_id == old(
                        self,
                    ).bots@[i].id by {
                    let id = old(self).bots@[i].id;
                    let idle = crate::scan::idle_ids(old(self).bots@, acts0);
                    assert(crate::scan::id_among(idle, id));
                    let mi = choose|mi: int| 0 <= mi < idle.len() && #[trigger] idle[mi] == id;
                    assert(acts2[i].action_type == ActionKind::Radar) by {
                        assert(find_action_idx(acts0, idle[mi]) == i);
                    }
                    assert(actions@[i] != acts0[i]) by {
                        if actions@[i] == acts2[i] {
                        } else {
                            assert(actions@[i].action_type == ActionKind::Move);
                        }
                    }
                }
            }
        }
        (decision, out)
    }

    /// Runs one full round: tags the raw records, sifts out confirmed
    /// asteroids, applies the events to the roster, logs the round, makes
    /// its decisions, logs them too, and hands the actions back for the
    /// transport, newest first.
    pub fn handle_message(&mut self, events_json: crate::defs::IncomingEvents) -> (msg:
        crate::defs::ActionsMessage)
        requires
            ai_wf(*old(self)),
            events_json.round_id as int == old(self).history@.len(),
            old(self).history@.len() <= 32765,
            events_input_wf(
                parsed_events(events_json.events@),
                old(self).bots@,
                old(self).config.field_radius as int,
            ),
        ensures
            ai_wf(*final(self)),
            final(self).round_id == events_json.round_id,
            final(self).history@.len() == old(self).history@.len() + 1,
            forall|i: int|
                0 <= i < old(self).history@.len() ==> final(self).history@[i] == old(
                    self,
                ).history@[i],
            final(self).config == old(self).config,
            final(self).radar_positions == old(self).radar_positions,
            msg.round_id == events_json.round_id,
            msg.actions@ == final(self).history@[events_json.round_id as int].actions@.reverse(),
            ({
                let kept = kept_after(
                    old(self).asteroids@,
                    old(self).history@,
                    old(self).bots@,
                    old(self).config.cannon as int,
                    events_json.round_id as int,
                    events_of_kind(parsed_events(events_json.events@), EventKind::Hit),
                    parsed_events(events_json.events@),
                    parsed_events(events_json.events@).len() as int,
                );
                &&& final(self).asteroids@ == reg_after(
                    old(self).asteroids@,
                    old(self).history@,
                    old(self).bots@,
                    old(self).config.cannon as int,
                    events_json.round_id as int,
                    events_of_kind(parsed_events(events_json.events@), EventKind::Hit),
                    parsed_events(events_json.events@),
                    parsed_events(events_json.events@).len() as int,
                )
                &&& final(self).bots@ == bots_after(old(self).bots@, kept, kept.len() as int)
                &&& final(self).history@[events_json.round_id as int].events@
                    == crate::lists::filter_relevant_spec(kept)
            }),
            final(self).history@[events_json.round_id as int].decision.mode == ActionMode::Attack
                || final(self).history@[events_json.round_id as int].decision.mode
                == ActionMode::Scan,
            ({
                let o = crate::attack::ladder_outcome(
                    final(self).history@,
                    final(self).bots@,
                    final(self).asteroids@,
                    events_json.round_id as int,
                );
                let d = final(self).history@[events_json.round_id as int].decision;
                &&& d.mode == if o is Some {
                    ActionMode::Attack
                } else {
                    ActionMode::Scan
                }
                &&& (o is Some ==> {
                    let tu = o->0;
                    d.target == Some(tu.0) && d.unused_echoes@ == tu.1
                })
                &&& (o is None ==> d.target is None && d.unused_echoes@ == Seq::<Pos>::empty())
            }),
            forall|j: int|
                0 <= j < msg.actions@.len() ==> (#[trigger] msg.actions@[j]).action_type
                    != ActionKind::Noaction,
            forall|m1: int, m2: int|
                0 <= m1 < m2 < msg.actions@.len() ==> msg.actions@[m1].bot_id
                    != msg.actions@[m2].bot_id,
            forall|m: int|
                #![trigger msg.actions@[m]]
                0 <= m < msg.actions@.len() ==> exists|i: int|
                    0 <= i < final(self).bots@.len() && (#[trigger] final(self).bots@[i]).alive
                        && final(self).bots@[i].id == msg.actions@[m].bot_id,
    {
        self.round_id = events_json.round_id;
        let mut events: Vec<Event> = Vec::new();
        let mut i: usize = 0;
        while i < events_json.events.len()
            invariant
                0 <= i <= events_json.events@.len(),
                events@ == parsed_events(events_json.events@).take(i as int),
            decreases events_json.events@.len() - i,
        {
            events.push(crate::defs::parse_event(&events_json.events[i]));
            proof {
                assert(events@ =~= parsed_events(events_json.events@).take(i as int + 1));
            }
            i = i + 1;
        }
        proof {
            assert(events@ =~= parsed_events(events_json.events@));
        }
        let ghost parsed = parsed_events(events_json.events@);
        let ghost hits = events_of_kind(parsed, EventKind::Hit);
        let ghost rid = events_json.round_id as int;
        let events: Vec<Event> = self.filter_asteroids_from_events(&events);
        let ghost kept = kept_after(
            old(self).asteroids@,
            old(self).history@,
            old(self).bots@,
            old(self).config.cannon as int,
            rid,
            hits,
            parsed,
            parsed.len() as int,
        );
        proof {
            lemma_kept_after_subset(
                old(self).asteroids@,
                old(self).history@,
                old(self).bots@,
                old(self).config.cannon as int,
                rid,
                hits,
                parsed,
                parsed.len() as int,
            );
            assert forall|j: int| 0 <= j < kept.len() implies match #[trigger] kept[j] {
                Event::See { pos, .. } => dist(pos, spec_origo()) <= self.config.field_radius,
                Event::Echo { pos } => dist(pos, spec_origo()) <= self.config.field_radius,
                Event::Move { bot_id, pos } => dist(pos, spec_origo()) <= self.config.field_radius
                    && is_our_bot_spec(self.bots@, bot_id),
                Event::Damaged { bot_id, .. } => is_our_bot_spec(self.bots@, bot_id),
                Event::Detected { bot_id } => is_our_bot_spec(self.bots@, bot_id),
                _ => true,
            } by {
                let m = choose|m: int| 0 <= m < parsed.len() && #[trigger] kept[j] == parsed[m];
            }
        }
        self.update_state(&events);
        let ghost bots_now = self.bots@;
        proof {
            // the roster keeps its ids, so stored references stay valid
            assert forall|id: i16|
                is_our_bot_spec(old(self).bots@, id) implies is_our_bot_spec(bots_now, id) by {
                let m = choose|m: int|
                    0 <= m < old(self).bots@.len() && (#[trigger] old(self).bots@[m]).id == id;
                assert(bots_now[m].id == id);
            }
        }
        self.history.add_events(self.round_id, &events);
        proof {
            lemma_filter_relevant_subset(kept);
            assert(entry_ok(
                self.history@[rid],
                self.config.field_radius as int,
            )) by {
                assert forall|j: int|
                    0 <= j < self.history@[rid].events@.len() implies dist(
                    event_pos(#[trigger] self.history@[rid].events@[j]),
                    spec_origo(),
                ) <= self.config.field_radius by {
                    let m = choose|m: int|
                        0 <= m < kept.len() && #[trigger] crate::lists::filter_relevant_spec(
                            kept,
                        )[j] == kept[m];
                }
            }
            assert(entry_refs_ok(self.history@[rid], self.bots@)) by {
                assert forall|j: int|
                    0 <= j < self.history@[rid].events@.len() implies match #[trigger] self.history@[rid].events@[j] {
                    Event::Detected { bot_id } => is_our_bot_spec(self.bots@, bot_id),
                    Event::Damaged { bot_id, .. } => is_our_bot_spec(self.bots@, bot_id),
                    Event::Move { bot_id, .. } => is_our_bot_spec(self.bots@, bot_id),
                    _ => true,
                } by {
                    let m = choose|m: int|
                        0 <= m < kept.len() && #[trigger] crate::lists::filter_relevant_spec(
                            kept,
                        )[j] == kept[m];
                }
            }
            assert forall|i2: int|
                0 <= i2 < self.history@.len() implies entry_ok(
                #[trigger] self.history@[i2],
                self.config.field_radius as int,
            ) && entry_refs_ok(self.history@[i2], self.bots@) by {
                if i2 < rid {
                    assert(self.history@[i2] == old(self).history@[i2]);
                }
            }
            assert(ai_wf(*self));
        }
        let ghost h_pre = self.history@;
        let (decision, actions) = self.make_decisions();
        let ghost dg = decision;
        self.history.add_actions(self.round_id, &actions);
        proof {
            assert forall|i2: int|
                0 <= i2 < self.history@.len() implies entry_ok(
                #[trigger] self.history@[i2],
                self.config.field_radius as int,
            ) && entry_refs_ok(self.history@[i2], self.bots@) by {
                if i2 != rid {
                }
            }
        }
        self.history.set_decision(self.round_id, decision);
        proof {
            assert forall|i2: int|
                0 <= i2 < self.history@.len() implies entry_ok(
                #[trigger] self.history@[i2],
                self.config.field_radius as int,
            ) && entry_refs_ok(self.history@[i2], self.bots@) by {
                if i2 != rid {
                }
            }
            assert(crate::attack::histories_agree_but(h_pre, self.history@, rid));
            crate::attack::lemma_ladder_ignores_own_round(
                h_pre,
                self.history@,
                self.bots@,
                self.asteroids@,
                rid,
            );
            assert(self.history@[rid].decision == dg);
        }
        let ghost outs = actions@;
        let msg = self.make_actions_message(actions);
        proof {
            assert forall|m1: int, m2: int|
                0 <= m1 < m2 < msg.actions@.len() implies msg.actions@[m1].bot_id
                != msg.actions@[m2].bot_id by {
                assert(msg.actions@[m1] == outs[outs.len() - 1 - m1]);
                assert(msg.actions@[m2] == outs[outs.len() - 1 - m2]);
            }
            assert forall|m: int| #![trigger msg.actions@[m]] 0 <= m < msg.actions@.len() implies
                exists|i: int|
                    0 <= i < self.bots@.len() && (#[trigger] self.bots@[i]).alive
                        && self.bots@[i].id == msg.actions@[m].bot_id by {
                assert(msg.actions@[m] == outs[outs.len() - 1 - m]);
                let i = choose|i: int|
                    0 <= i < self.bots@.len() && (#[trigger] self.bots@[i]).alive
                        && self.bots@[i].id == outs[outs.len() - 1 - m].bot_id;
            }
        }
        msg
    }

    /// Wraps the round's actions for the transport, newest first.
    pub(crate) fn make_actions_message(&self, actions: Vec<Action>) -> (msg:
        crate::defs::ActionsMessage)
        ensures
            msg.round_id == self.round_id,
            msg.actions@ == actions@.reverse(),
    {
        let mut rev: Vec<Action> = Vec::new();
        let mut i: usize = actions.len();
        while i > 0
            invariant
                0 <= i <= actions@.len(),
                rev@.len() == actions@.len() - i,
                forall|k: int|
                    0 <= k < rev@.len() ==> #[trigger] rev@[k] == actions@[actions@.len() - 1 - k],
            decreases i,
        {
            i = i - 1;
            rev.push(actions[i]);
        }
        proof {
            assert(rev@ =~= actions@.reverse());
        }
        crate::defs::ActionsMessage { round_id: self.round_id, actions: rev }
    }
}

} // verus!
