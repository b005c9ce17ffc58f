//! The evasion overlay: bots seen or damaged in the last two rounds move
//! away this round, overriding any scan or attack order they already hold.

use vstd::prelude::*;
use crate::attack::{actions_cover, decisions_pre, only_rng_differs, same_ids, writes_only_live};
use crate::bot::Bot;
use crate::defs::{Action, ActionKind, Event, EventKind};
use crate::engine::{
    Ai, ai_wf, find_bot_idx, is_our_bot_spec, lemma_find_bot_idx, bots_alive_spec, entry_refs_ok,
};
use crate::lists::{
    ActionsList, HistoryList, events_window, events_of_kind, find_action_idx,
    lemma_events_of_kind_subset, lemma_find_action_idx, lemma_find_action_idx_ids, HistoryEntry,
};
use crate::position::{
    Pos, dist, lex_lt, pos_in_range, pos_near_board, spec_origo, lemma_dist_zero_eq,
    lemma_step_toward_origin, abs_int,
};
use crate::util::get_random_pos;

verus! {

/// A distance larger than any two on-board hexes are apart; the minimum
/// over an empty set of teammates.
pub const FAR_AWAY: i16 = 30000;

/// The smallest distance from `p` to a living bot other than `self_id`.
pub open spec fn min_dist_others(bots: Seq<Bot>, self_id: i16, p: Pos) -> int
    decreases bots.len(),
{
    if bots.len() == 0 {
        FAR_AWAY as int
    } else {
        let rest = min_dist_others(bots.drop_last(), self_id, p);
        if bots.last().alive && bots.last().id != self_id {
            let d = dist(bots.last().pos, p);
            if d < rest {
                d
            } else {
                rest
            }
        } else {
            rest
        }
    }
}

/// A legal evasion destination for this bot.
pub open spec fn legal_move(b: Bot, p: Pos, moves_allowed: int, field_radius: int) -> bool {
    &&& dist(b.pos, p) <= moves_allowed
    &&& p != b.pos
    &&& dist(p, spec_origo()) <= field_radius
}

/// Whether an event orders the bot with this id to evade.
pub open spec fn event_refers(e: Event, id: i16) -> bool {
    match e {
        Event::Detected { bot_id } => bot_id == id,
        Event::Damaged { bot_id, .. } => bot_id == id,
        _ => false,
    }
}

/// The detection evidence followed by the damage evidence of the last two
/// rounds.
pub open spec fn evade_window(h: Seq<crate::lists::HistoryEntry>) -> Seq<(Event, i16)> {
    events_window(h, EventKind::Detected, h.len() - 2, h.len() as int) + events_window(
        h,
        EventKind::Damaged,
        h.len() - 2,
        h.len() as int,
    )
}

/// Whether this living roster bot was detected or damaged in the last two
/// rounds and so must move this round.
pub open spec fn must_evade(h: Seq<crate::lists::HistoryEntry>, bots: Seq<Bot>, id: i16) -> bool {
    &&& exists|k: int|
        0 <= k < evade_window(h).len() && event_refers((#[trigger] evade_window(h)[k]).0, id)
    &&& find_bot_idx(bots, id) >= 0
    &&& bots[find_bot_idx(bots, id)].alive
}

/// The stated evasion destination: a legal move, and with company away
/// from the edge, the latest maximizer of the distance to the nearest
/// living teammate.
pub open spec fn evade_dest_ok(
    bots: Seq<Bot>,
    b: Bot,
    p: Pos,
    moves_allowed: int,
    field_radius: int,
) -> bool {
    &&& legal_move(b, p, moves_allowed, field_radius)
    &&& (bots_alive_spec(bots) >= 2 && dist(b.pos, spec_origo()) <= field_radius - 2 ==> forall|
        q: Pos,
    |
        #[trigger] legal_move(b, q, moves_allowed, field_radius) ==> min_dist_others(bots, b.id, q)
            < min_dist_others(bots, b.id, p) || (min_dist_others(bots, b.id, q) == min_dist_others(
            bots,
            b.id,
            p,
        ) && (q == p || lex_lt(q, p))))
}

impl Ai {
    /// A uniformly random legal neighbor of the bot.
    pub(crate) fn evade_random_pos(&mut self, bot: &Bot) -> (r: Pos)
        requires
            ai_wf(*old(self)),
            dist(bot.pos, spec_origo()) <= old(self).config.field_radius,
        ensures
            legal_move(*bot, r, old(self).config.moves_allowed as int, old(
                self,
            ).config.field_radius as int),
            pos_in_range(r),
            only_rng_differs(*old(self), *final(self)),
            ai_wf(*final(self)),
    {
        let neighbors = bot.pos.clamped_neighbors(self.config.moves_allowed, self.config.field_radius);
        proof {
            if bot.pos == spec_origo() {
                let w = Pos { x: 1, y: 0 };
                assert(dist(bot.pos, w) == 1 && w != bot.pos && dist(w, spec_origo()) == 1);
                assert(neighbors@.contains(w));
            } else {
                lemma_step_toward_origin(bot.pos);
                let q = choose|q: Pos|
                    #[trigger] dist(bot.pos, q) == 1 && dist(q, spec_origo()) == dist(
                        bot.pos,
                        spec_origo(),
                    ) - 1 && abs_int(q.x as int) <= abs_int(bot.pos.x as int) + 1 && abs_int(
                        q.y as int,
                    ) <= abs_int(bot.pos.y as int) + 1;
                assert(q != bot.pos) by {
                    lemma_dist_zero_eq(bot.pos, q);
                }
                assert(neighbors@.contains(q));
            }
            assert(neighbors@.len() >= 1);
        }
        let r = get_random_pos(&mut self.rng, &neighbors);
        proof {
            assert(neighbors@.contains(r));
        }
        r
    }

    /// The legal neighbor farthest from the rest of the living squad, or a
    /// random one when the bot is too close to the board edge for the
    /// spread heuristic to help.
    pub(crate) fn evade_spread_pos(&mut self, bot: &Bot) -> (r: Pos)
        requires
            ai_wf(*old(self)),
            dist(bot.pos, spec_origo()) <= old(self).config.field_radius,
            bots_alive_spec(old(self).bots@) >= 2,
        ensures
            legal_move(*bot, r, old(self).config.moves_allowed as int, old(
                self,
            ).config.field_radius as int),
            pos_in_range(r),
            only_rng_differs(*old(self), *final(self)),
            ai_wf(*final(self)),
            dist(bot.pos, spec_origo()) <= old(self).config.field_radius - 2 ==> forall|q: Pos|
                #[trigger] legal_move(*bot, q, old(self).config.moves_allowed as int, old(
                    self,
                ).config.field_radius as int) ==> min_dist_others(old(self).bots@, bot.id, q)
                < min_dist_others(old(self).bots@, bot.id, r) || (min_dist_others(
                old(self).bots@,
                bot.id,
                q,
            ) == min_dist_others(old(self).bots@, bot.id, r) && (q == r || lex_lt(q, r))),
    {
        // near the edge the spread heuristic has no room: move at random
        if bot.pos.distance(Pos::origo()) > self.config.field_radius - 2 {
            return self.evade_random_pos(bot);
        }
        let neighbors = bot.pos.clamped_neighbors(self.config.moves_allowed, self.config.field_radius);
        proof {
            if bot.pos == spec_origo() {
                let w = Pos { x: 1, y: 0 };
                assert(dist(bot.pos, w) == 1 && w != bot.pos && dist(w, spec_origo()) == 1);
                assert(neighbors@.contains(w));
            } else {
                lemma_step_toward_origin(bot.pos);
                let q = choose|q: Pos|
                    #[trigger] dist(bot.pos, q) == 1 && dist(q, spec_origo()) == dist(
                        bot.pos,
                        spec_origo(),
                    ) - 1 && abs_int(q.x as int) <= abs_int(bot.pos.x as int) + 1 && abs_int(
                        q.y as int,
                    ) <= abs_int(bot.pos.y as int) + 1;
                assert(q != bot.pos) by {
                    lemma_dist_zero_eq(bot.pos, q);
                }
                assert(neighbors@.contains(q));
            }
            assert(neighbors@.len() >= 1);
        }
        let mut best: Pos = neighbors[0];
        let mut best_d: i16 = self.min_dist_to_others(bot.id, best);
        let mut i: usize = 1;
        while i < neighbors.len()
            invariant
                1 <= i <= neighbors@.len(),
                neighbors@.contains(best),
                best_d == min_dist_others(self.bots@, bot.id, best),
                forall|k: int|
                    0 <= k < i ==> min_dist_others(self.bots@, bot.id, #[trigger] neighbors@[k])
                        < best_d || (min_dist_others(self.bots@, bot.id, neighbors@[k]) == best_d
                        && (neighbors@[k] == best || lex_lt(neighbors@[k], best))),
            decreases neighbors@.len() - i,
        {
            let cand = neighbors[i];
            proof {
                assert(neighbors@[i as int] == cand);
                assert(neighbors@.contains(cand));
            }
            let cd = self.min_dist_to_others(bot.id, cand);
            if cd >= best_d {
                proof {
                    let k0 = choose|k0: int|
                        0 <= k0 < neighbors@.len() && neighbors@[k0] == best;
                    assert forall|k: int|
                        0 <= k < i + 1 implies min_dist_others(
                        self.bots@,
                        bot.id,
                        #[trigger] neighbors@[k],
                    ) < cd || (min_dist_others(self.bots@, bot.id, neighbors@[k]) == cd && (
                    neighbors@[k] == cand || lex_lt(neighbors@[k], cand))) by {
                        if k < i {
                            if neighbors@[k] == best || lex_lt(neighbors@[k], best) {
                                if min_dist_others(self.bots@, bot.id, neighbors@[k]) == cd {
                                    assert(k < i as int);
                                    assert(lex_lt(neighbors@[k], neighbors@[i as int]));
                                }
                            }
                        }
                    }
                }
                best = cand;
                best_d = cd;
            } else {
                proof {
                    if lex_lt(best, cand) || best == cand {
                    }
                    assert forall|k: int| 0 <= k < i + 1 implies min_dist_others(
                        self.bots@,
                        bot.id,
                        #[trigger] neighbors@[k],
                    ) < best_d || (min_dist_others(self.bots@, bot.id, neighbors@[k]) == best_d
                        && (neighbors@[k] == best || lex_lt(neighbors@[k], best))) by {
                        if k == i as int {
                            assert(min_dist_others(self.bots@, bot.id, cand) < best_d);
                        }
                    }
                }
            }
            i = i + 1;
        }
        proof {
            assert forall|q: Pos| #[trigger]
                legal_move(
                    *bot,
                    q,
                    self.config.moves_allowed as int,
                    self.config.field_radius as int,
                ) implies min_dist_others(self.bots@, bot.id, q) < best_d || (min_dist_others(
                self.bots@,
                bot.id,
                q,
            ) == best_d && (q == best || lex_lt(q, best))) by {
                assert(neighbors@.contains(q));
                let k = choose|k: int| 0 <= k < neighbors@.len() && neighbors@[k] == q;
            }
        }
        best
    }

    /// The smallest distance from `p` to a living bot other than `self_id`.
    fn min_dist_to_others(&self, self_id: i16, p: Pos) -> (d: i16)
        requires
            ai_wf(*self),
            pos_in_range(p),
        ensures
            d == min_dist_others(self.bots@, self_id, p),
    {
        let mut d: i16 = FAR_AWAY;
        let mut i: usize = 0;
        while i < self.bots.len()
            invariant
                0 <= i <= self.bots@.len(),
                d == min_dist_others(self.bots@.take(i as int), self_id, p),
            decreases self.bots@.len() - i,
        {
            proof {
                assert(self.bots@.take(i as int + 1).drop_last() =~= self.bots@.take(i as int));
                assert(self.bots@.take(i as int + 1).last() == self.bots@[i as int]);
            }
            let b = self.bots[i];
            if b.alive && b.id != self_id {
                let bd = b.pos.distance(p);
                if bd < d {
                    d = bd;
                }
            }
            i = i + 1;
        }
        proof {
            assert(self.bots@.take(self.bots@.len() as int) =~= self.bots@);
        }
        d
    }

    /// The evasion destination: spread away from the squad with company,
    /// or move at random alone.
    pub fn evade_pos(&mut self, bot: &Bot) -> (r: Pos)
        requires
            ai_wf(*old(self)),
            dist(bot.pos, spec_origo()) <= old(self).config.field_radius,
        ensures
            legal_move(*bot, r, old(self).config.moves_allowed as int, old(
                self,
            ).config.field_radius as int),
            pos_in_range(r),
            only_rng_differs(*old(self), *final(self)),
            ai_wf(*final(self)),
            bots_alive_spec(old(self).bots@) >= 2 && dist(bot.pos, spec_origo()) <= old(
                self,
            ).config.field_radius - 2 ==> forall|q: Pos|
                #[trigger] legal_move(*bot, q, old(self).config.moves_allowed as int, old(
                    self,
                ).config.field_radius as int) ==> min_dist_others(old(self).bots@, bot.id, q)
                < min_dist_others(old(self).bots@, bot.id, r) || (min_dist_others(
                old(self).bots@,
                bot.id,
                q,
            ) == min_dist_others(old(self).bots@, bot.id, r) && (q == r || lex_lt(q, r))),
    {
        if self.bots_alive() >= 2 {
            self.evade_spread_pos(bot)
        } else {
            self.evade_random_pos(bot)
        }
    }

    /// The bot's evasion order.
    pub fn evade_action(&mut self, bot: &Bot) -> (a: Action)
        requires
            ai_wf(*old(self)),
            dist(bot.pos, spec_origo()) <= old(self).config.field_radius,
        ensures
            a.bot_id == bot.id,
            a.action_type == ActionKind::Move,
            legal_move(*bot, a.pos, old(self).config.moves_allowed as int, old(
                self,
            ).config.field_radius as int),
            only_rng_differs(*old(self), *final(self)),
            ai_wf(*final(self)),
    {
        let pos = self.evade_pos(bot);
        Action { bot_id: bot.id, action_type: ActionKind::Move, pos }
    }

    /// Gives every living bot that was detected or damaged in the last two
    /// rounds a move order away from danger.
    #[verifier::rlimit(80)]
    pub fn evade_if_needed(&mut self, actions: &mut Vec<Action>)
        requires
            decisions_pre(*old(self)),
            actions_cover(old(actions)@, old(self).bots@),
        ensures
            only_rng_differs(*old(self), *final(self)),
            ai_wf(*final(self)),
            decisions_pre(*final(self)),
            same_ids(old(actions)@, final(actions)@),
            actions_cover(final(actions)@, final(self).bots@),
            forall|j: int|
                0 <= j < final(actions)@.len() && #[trigger] final(actions)@[j] != old(actions)@[j]
                    ==> final(actions)@[j].action_type == ActionKind::Move && dist(
                    final(actions)@[j].pos,
                    spec_origo(),
                ) <= old(self).config.field_radius && pos_near_board(final(actions)@[j].pos),
            forall|j: int|
                #![trigger old(actions)@[j]]
                0 <= j < final(actions)@.len() ==> {
                    let id = old(actions)@[j].bot_id;
                    let bi = find_bot_idx(old(self).bots@, id);
                    &&& (j == find_action_idx(old(actions)@, id) && must_evade(
                        old(self).history@,
                        old(self).bots@,
                        id,
                    ) ==> final(actions)@[j].action_type == ActionKind::Move && evade_dest_ok(
                        old(self).bots@,
                        old(self).bots@[bi],
                        final(actions)@[j].pos,
                        old(self).config.moves_allowed as int,
                        old(self).config.field_radius as int,
                    ))
                    &&& (!(j == find_action_idx(old(actions)@, id) && must_evade(
                        old(self).history@,
                        old(self).bots@,
                        id,
                    )) ==> final(actions)@[j] == old(actions)@[j])
                },
            writes_only_live(old(actions)@, final(actions)@, old(self).bots@),
    {
        let mut evade_events = self.history.get_events(EventKind::Detected, 2);
        let mut damaged = self.history.get_events(EventKind::Damaged, 2);
        evade_events.append(&mut damaged);
        proof {
            assert(evade_events@ == evade_window(old(self).history@));
            lemma_window_refs(
                self.history@,
                EventKind::Detected,
                self.history@.len() - 2,
                self.history@.len() as int,
                self.bots@,
            );
            lemma_window_refs(
                self.history@,
                EventKind::Damaged,
                self.history@.len() - 2,
                self.history@.len() as int,
                self.bots@,
            );
        }
        let ghost acts0 = old(actions)@;
        let mut i: usize = 0;
        while i < evade_events.len()
            invariant
                0 <= i <= evade_events@.len(),
                forall|k: int|
                    0 <= k < evade_events@.len() ==> match (#[trigger] evade_events@[k]).0 {
                        Event::Detected { bot_id } => is_our_bot_spec(old(self).bots@, bot_id),
                        Event::Damaged { bot_id, .. } => is_our_bot_spec(old(self).bots@, bot_id),
                        _ => true,
                    },
                only_rng_differs(*old(self), *self),
                ai_wf(*self),
                decisions_pre(*self),
                same_ids(acts0, actions@),
                actions_cover(actions@, self.bots@),
                evade_events@ == evade_window(old(self).history@),
                forall|j: int|
                    0 <= j < actions@.len() && #[trigger] actions@[j] != acts0[j]
                        ==> actions@[j].action_type == ActionKind::Move && dist(
                        actions@[j].pos,
                        spec_origo(),
                    ) <= old(self).config.field_radius && pos_near_board(actions@[j].pos),
                forall|j: int|
                    #![trigger acts0[j]]
                    0 <= j < actions@.len() ==> {
                        let id = acts0[j].bot_id;
                        let bi = find_bot_idx(old(self).bots@, id);
                        &&& (j == find_action_idx(acts0, id) && bi >= 0 && old(
                            self,
                        ).bots@[bi].alive && (exists|k: int|
                            0 <= k < i && event_refers(
                                (#[trigger] evade_events@[k]).0,
                                id,
                            )) ==> actions@[j].action_type == ActionKind::Move && evade_dest_ok(
                            old(self).bots@,
                            old(self).bots@[bi],
                            actions@[j].pos,
                            old(self).config.moves_allowed as int,
                            old(self).config.field_radius as int,
                        ))
                        &&& (!(j == find_action_idx(acts0, id) && bi >= 0 && old(
                            self,
                        ).bots@[bi].alive && (exists|k: int|
                            0 <= k < i && event_refers(
                                (#[trigger] evade_events@[k]).0,
                                id,
                            ))) ==> actions@[j] == acts0[j])
                    },
            decreases evade_events@.len() - i,
        {
            let ev = evade_events[i];
            proof {
                assert(evade_events@[i as int] == ev);
            }
            let bot_id_opt: Option<i16> = match ev.0 {
                Event::Detected { bot_id } => Some(bot_id),
                Event::Damaged { bot_id, .. } => Some(bot_id),
                _ => None,
            };
            match bot_id_opt {
                Some(bot_id) => {
                    proof {
                        lemma_find_bot_idx(self.bots@, bot_id);
                    }
                    let bot = match self.get_bot(bot_id) {
                        Some(b) => *b,
                        None => Bot { id: bot_id, alive: false, pos: Pos { x: 0, y: 0 }, hp: 0 },
                    };
                    if !bot.alive {
                    proof {
                        assert forall|j: int|
                            #![trigger acts0[j]]
                            0 <= j < actions@.len() implies {
                            let id = acts0[j].bot_id;
                            let bi = find_bot_idx(old(self).bots@, id);
                            &&& (j == find_action_idx(acts0, id) && bi >= 0 && old(
                                self,
                            ).bots@[bi].alive && (exists|k: int|
                                0 <= k < i + 1 && event_refers(
                                    (#[trigger] evade_events@[k]).0,
                                    id,
                                )) ==> actions@[j].action_type == ActionKind::Move
                                && evade_dest_ok(
                                old(self).bots@,
                                old(self).bots@[bi],
                                actions@[j].pos,
                                old(self).config.moves_allowed as int,
                                old(self).config.field_radius as int,
                            ))
                            &&& (!(j == find_action_idx(acts0, id) && bi >= 0 && old(
                                self,
                            ).bots@[bi].alive && (exists|k: int|
                                0 <= k < i + 1 && event_refers(
                                    (#[trigger] evade_events@[k]).0,
                                    id,
                                ))) ==> actions@[j] == acts0[j])
                        } by {
                            let id = acts0[j].bot_id;
                            let bi = find_bot_idx(old(self).bots@, id);
                            if j == find_action_idx(acts0, id) && bi >= 0 && old(
                                self,
                            ).bots@[bi].alive && (exists|k: int|
                                0 <= k < i + 1 && event_refers(
                                    (#[trigger] evade_events@[k]).0,
                                    id,
                                )) {
                                let k = choose|k: int|
                                    0 <= k < i + 1 && event_refers(
                                        (#[trigger] evade_events@[k]).0,
                                        id,
                                    );
                                if k == i as int {
                                    assert(event_refers(ev.0, id));
                                    assert(false);
                                }
                                assert(exists|k2: int|
                                    0 <= k2 < i && event_refers(
                                        (#[trigger] evade_events@[k2]).0,
                                        id,
                                    ));
                            } else {
                                if exists|k: int|
                                    0 <= k < i && event_refers(
                                        (#[trigger] evade_events@[k]).0,
                                        id,
                                    ) {
                                    let k = choose|k: int|
                                        0 <= k < i && event_refers(
                                            (#[trigger] evade_events@[k]).0,
                                            id,
                                        );
                                    assert(exists|k2: int|
                                        0 <= k2 < i + 1 && event_refers(
                                            (#[trigger] evade_events@[k2]).0,
                                            id,
                                        ));
                                }
                            }
                        }
                    }
                    } else {
                        let destination = self.evade_pos(&bot);
                        let ghost before = actions@;
                        proof {
                            let f = find_bot_idx(self.bots@, bot_id);
                            assert(self.bots@[f].id == bot_id);
                            assert(find_action_idx(actions@, bot_id) >= 0);
                            lemma_find_action_idx(actions@, bot_id);
                        }
                        actions.set_action_for(bot_id, ActionKind::Move, destination);
                        proof {
                            let f2 = find_action_idx(before, bot_id);
                            assert(before[f2].bot_id == bot_id);
                            assert forall|j: int|
                                0 <= j < actions@.len() implies (#[trigger] actions@[j]).bot_id
                                == acts0[j].bot_id by {
                                if j != f2 {
                                    assert(actions@[j] == before[j]);
                                }
                            }
                            assert forall|i2: int|
                                0 <= i2 < self.bots@.len() implies find_action_idx(
                                actions@,
                                (#[trigger] self.bots@[i2]).id,
                            ) >= 0 by {
                                lemma_find_action_idx_ids(acts0, actions@, self.bots@[i2].id);
                                lemma_find_action_idx_ids(acts0, before, self.bots@[i2].id);
                            }
                            lemma_find_action_idx_ids(acts0, before, bot_id);
                            lemma_find_action_idx(acts0, bot_id);
                            let fa = find_action_idx(acts0, bot_id);
                            assert(fa == f2);
                            assert forall|j: int|
                                #![trigger acts0[j]]
                                0 <= j < actions@.len() implies {
                                let id = acts0[j].bot_id;
                                let bi = find_bot_idx(old(self).bots@, id);
                                &&& (j == find_action_idx(acts0, id) && bi >= 0 && old(
                                    self,
                                ).bots@[bi].alive && (exists|k: int|
                                    0 <= k < i + 1 && event_refers(
                                        (#[trigger] evade_events@[k]).0,
                                        id,
                                    )) ==> actions@[j].action_type == ActionKind::Move
                                    && evade_dest_ok(
                                    old(self).bots@,
                                    old(self).bots@[bi],
                                    actions@[j].pos,
                                    old(self).config.moves_allowed as int,
                                    old(self).config.field_radius as int,
                                ))
                                &&& (!(j == find_action_idx(acts0, id) && bi >= 0 && old(
                                    self,
                                ).bots@[bi].alive && (exists|k: int|
                                    0 <= k < i + 1 && event_refers(
                                        (#[trigger] evade_events@[k]).0,
                                        id,
                                    ))) ==> actions@[j] == acts0[j])
                            } by {
                                let id = acts0[j].bot_id;
                                let bi = find_bot_idx(old(self).bots@, id);
                                if j == fa {
                                    assert(id == bot_id);
                                    assert(event_refers(ev.0, id));
                                    assert(exists|k2: int|
                                        0 <= k2 < i + 1 && event_refers(
                                            (#[trigger] evade_events@[k2]).0,
                                            id,
                                        )) by {
                                        assert(event_refers(evade_events@[i as int].0, id));
                                    }
                                    assert(old(self).bots@[bi] == bot);
                                    assert(actions@[j].action_type == ActionKind::Move);
                                    assert(actions@[j].pos == destination);
                                    assert(evade_dest_ok(
                                        old(self).bots@,
                                        bot,
                                        destination,
                                        old(self).config.moves_allowed as int,
                                        old(self).config.field_radius as int,
                                    ));
                                } else {
                                    assert(actions@[j] == before[j]);
                                    if j == find_action_idx(acts0, id) && bi >= 0 && old(
                                        self,
                                    ).bots@[bi].alive && (exists|k: int|
                                        0 <= k < i + 1 && event_refers(
                                            (#[trigger] evade_events@[k]).0,
                                            id,
                                        )) {
                                        let k = choose|k: int|
                                            0 <= k < i + 1 && event_refers(
                                                (#[trigger] evade_events@[k]).0,
                                                id,
                                            );
                                        if k == i as int {
                                            assert(event_refers(ev.0, id));
                                            assert(id == bot_id);
                                            assert(j == fa);
                                            assert(false);
                                        }
                                        assert(exists|k2: int|
                                            0 <= k2 < i && event_refers(
                                                (#[trigger] evade_events@[k2]).0,
                                                id,
                                            ));
                                    } else {
                                        if exists|k: int|
                                            0 <= k < i && event_refers(
                                                (#[trigger] evade_events@[k]).0,
                                                id,
                                            ) {
                                            let k = choose|k: int|
                                                0 <= k < i && event_refers(
                                                    (#[trigger] evade_events@[k]).0,
                                                    id,
                                                );
                                            assert(exists|k2: int|
                                                0 <= k2 < i + 1 && event_refers(
                                                    (#[trigger] evade_events@[k2]).0,
                                                    id,
                                                ));
                                        }
                                    }
                                }
                            }
                        }
                    }
                },
                None => {
                    proof {
                        assert forall|j: int|
                            #![trigger acts0[j]]
                            0 <= j < actions@.len() implies {
                            let id = acts0[j].bot_id;
                            let bi = find_bot_idx(old(self).bots@, id);
                            &&& (j == find_action_idx(acts0, id) && bi >= 0 && old(
                                self,
                            ).bots@[bi].alive && (exists|k: int|
                                0 <= k < i + 1 && event_refers(
                                    (#[trigger] evade_events@[k]).0,
                                    id,
                                )) ==> actions@[j].action_type == ActionKind::Move
                                && evade_dest_ok(
                                old(self).bots@,
                                old(self).bots@[bi],
                                actions@[j].pos,
                                old(self).config.moves_allowed as int,
                                old(self).config.field_radius as int,
                            ))
                            &&& (!(j == find_action_idx(acts0, id) && bi >= 0 && old(
                                self,
                            ).bots@[bi].alive && (exists|k: int|
                                0 <= k < i + 1 && event_refers(
                                    (#[trigger] evade_events@[k]).0,
                                    id,
                                ))) ==> actions@[j] == acts0[j])
                        } by {
                            let id = acts0[j].bot_id;
                            let bi = find_bot_idx(old(self).bots@, id);
                            if j == find_action_idx(acts0, id) && bi >= 0 && old(
                                self,
                            ).bots@[bi].alive && (exists|k: int|
                                0 <= k < i + 1 && event_refers(
                                    (#[trigger] evade_events@[k]).0,
                                    id,
                                )) {
                                let k = choose|k: int|
                                    0 <= k < i + 1 && event_refers(
                                        (#[trigger] evade_events@[k]).0,
                                        id,
                                    );
                                if k == i as int {
                                    assert(event_refers(ev.0, id));
                                    assert(false);
                                }
                                assert(exists|k2: int|
                                    0 <= k2 < i && event_refers(
                                        (#[trigger] evade_events@[k2]).0,
                                        id,
                                    ));
                            } else {
                                if exists|k: int|
                                    0 <= k < i && event_refers(
                                        (#[trigger] evade_events@[k]).0,
                                        id,
                                    ) {
                                    let k = choose|k: int|
                                        0 <= k < i && event_refers(
                                            (#[trigger] evade_events@[k]).0,
                                            id,
                                        );
                                    assert(exists|k2: int|
                                        0 <= k2 < i + 1 && event_refers(
                                            (#[trigger] evade_events@[k2]).0,
                                            id,
                                        ));
                                }
                            }
                        }
                    }
                },
            }
            i = i + 1;
        }
        proof {
            assert forall|j: int|
                0 <= j < actions@.len() && #[trigger] actions@[j] != acts0[j] implies exists|
                i2: int,
            |
                0 <= i2 < old(self).bots@.len() && (#[trigger] old(self).bots@[i2]).alive && old(
                self,
            ).bots@[i2].id == actions@[j].bot_id by {
                let id = acts0[j].bot_id;
                let bi = find_bot_idx(old(self).bots@, id);
                assert(!(j == find_action_idx(acts0, id) && bi >= 0 && old(self).bots@[bi].alive
                    && (exists|k: int|
                    0 <= k < i && event_refers((#[trigger] evade_events@[k]).0, id))) ==> actions@[j]
                    == acts0[j]);
                assert(bi >= 0 && old(self).bots@[bi].alive);
                lemma_find_bot_idx(old(self).bots@, id);
                assert(0 <= bi < old(self).bots@.len());
                assert(old(self).bots@[bi].id == id);
                assert(actions@[j].bot_id == id);
            }
        }
    }
}

/// Stored windows of events about our own bots reference bots on the
/// roster.
proof fn lemma_window_refs(
    h: Seq<HistoryEntry>,
    k: EventKind,
    cutoff: int,
    n: int,
    bots: Seq<Bot>,
)
    requires
        n <= h.len(),
        forall|r: int| 0 <= r < h.len() ==> entry_refs_ok(#[trigger] h[r], bots),
    ensures
        forall|i: int|
            0 <= i < events_window(h, k, cutoff, n).len() ==> match (#[trigger] events_window(
                h,
                k,
                cutoff,
                n,
            )[i]).0 {
                Event::Detected { bot_id } => is_our_bot_spec(bots, bot_id),
                Event::Damaged { bot_id, .. } => is_our_bot_spec(bots, bot_id),
                Event::Move { bot_id, .. } => is_our_bot_spec(bots, bot_id),
                _ => true,
            },
    decreases n,
{
    if n > 0 {
        lemma_window_refs(h, k, cutoff, n - 1, bots);
        let w = events_window(h, k, cutoff, n);
        let rest = events_window(h, k, cutoff, n - 1);
        if n - 1 >= cutoff {
            let ev = h[n - 1].events@;
            lemma_events_of_kind_subset(ev, k);
            assert forall|i: int| 0 <= i < w.len() implies match (#[trigger] w[i]).0 {
                Event::Detected { bot_id } => is_our_bot_spec(bots, bot_id),
                Event::Damaged { bot_id, .. } => is_our_bot_spec(bots, bot_id),
                Event::Move { bot_id, .. } => is_our_bot_spec(bots, bot_id),
                _ => true,
            } by {
                if i < rest.len() {
                    assert(w[i] == rest[i]);
                } else {
                    let f = events_of_kind(ev, k);
                    assert(w[i].0 == f[i - rest.len()]);
                    let j = choose|j: int|
                        0 <= j < ev.len() && #[trigger] f[i - rest.len()] == ev[j];
                    assert(entry_refs_ok(h[n - 1], bots));
                }
            }
        }
    }
}

} // verus!
