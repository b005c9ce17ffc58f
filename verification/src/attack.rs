//! The attack side of the decision ladder: kill check, fresh echoes, fresh
//! hits, stale continuation, and the friendly-fire avoidance applied to
//! every cannon position.

use vstd::prelude::*;
use crate::bot::Bot;
use crate::defs::{Action, ActionKind, Event, EventKind};
use crate::engine::{
    Ai, ai_wf, danger, is_our_bot_spec, healthy_live_spec,
    live_bots_spec, spec_pos_from_hit, filter_actions_by_bot, entry_ok,
};
use crate::lists::{
    ActionMode, ActionsList, Decision, HistoryEntry, HistoryList, actions_of_kind,
    echo_pairs_window, events_window, filter_ne, find_action_idx, lemma_actions_of_kind_subset,
    lemma_echo_pairs_window_bound, lemma_filter_ne_subset, lemma_find_action_idx,
    lemma_find_action_idx_ids, reg_confirmed,
    AsteroidList,
};
use crate::position::{
    Pos, dist, pos_in_range, pos_near_board, spec_origo, lemma_dist_triangle,
    lemma_dist_symmetric,
};

verus! {

/// The first components of a sequence of tagged positions.
pub open spec fn pairs_positions(s: Seq<(Pos, i16)>) -> Seq<Pos> {
    s.map(|i: int, t: (Pos, i16)| t.0)
}

/// Whether this round's events report an enemy bot's death.
pub open spec fn enemy_die_this_round(h: Seq<HistoryEntry>, bots: Seq<Bot>) -> bool {
    exists|i: int|
        0 <= i < events_window(h, EventKind::Die, h.len() - 1, h.len() as int).len()
            && match (#[trigger] events_window(h, EventKind::Die, h.len() - 1, h.len() as int)[i]).0 {
            Event::Die { bot_id } => !is_our_bot_spec(bots, bot_id),
            _ => false,
        }
}

/// The positions sighted this round, See evidence first.
pub open spec fn fresh_echoes(h: Seq<HistoryEntry>) -> Seq<Pos> {
    pairs_positions(echo_pairs_window(h, h.len() - 1, h.len() as int))
}

/// The previous round, clamped at the first.
pub open spec fn spec_last_round(rid: int) -> int {
    if rid - 1 >= 0 {
        rid - 1
    } else {
        0
    }
}

/// The mode the previous round's decision recorded.
pub open spec fn last_mode(h: Seq<HistoryEntry>, rid: int) -> ActionMode {
    let lr = spec_last_round(rid);
    if 0 <= lr < h.len() {
        h[lr].decision.mode
    } else {
        ActionMode::Nomode
    }
}

/// The hit events of a tagged window that damaged an enemy bot.
pub open spec fn hits_enemy(s: Seq<(Event, i16)>, bots: Seq<Bot>) -> Seq<(Event, i16)>
    decreases s.len(),
{
    if s.len() == 0 {
        Seq::empty()
    } else {
        let rest = hits_enemy(s.drop_last(), bots);
        let keep = match s.last().0 {
            Event::Hit { bot_id, .. } => !is_our_bot_spec(bots, bot_id),
            _ => false,
        };
        if keep {
            rest.push(s.last())
        } else {
            rest
        }
    }
}

/// The sighted positions of exactly the previous round that are not
/// confirmed asteroids.
pub open spec fn stale_echo_filter(s: Seq<(Pos, i16)>, reg: Seq<(Pos, bool)>, lr: i16) -> Seq<Pos>
    decreases s.len(),
{
    if s.len() == 0 {
        Seq::empty()
    } else {
        let rest = stale_echo_filter(s.drop_last(), reg, lr);
        if s.last().1 == lr && !reg_confirmed(reg, s.last().0) {
            rest.push(s.last().0)
        } else {
            rest
        }
    }
}

pub open spec fn stale_echoes(h: Seq<HistoryEntry>, reg: Seq<(Pos, bool)>, rid: int) -> Seq<Pos> {
    stale_echo_filter(
        echo_pairs_window(h, h.len() - 2, h.len() as int),
        reg,
        spec_last_round(rid) as i16,
    )
}

/// The traceable positions behind the previous round's hits on enemies.
pub open spec fn stale_hit_positions(h: Seq<HistoryEntry>, s: Seq<(Event, i16)>, lr: i16) -> Seq<
    Pos,
>
    decreases s.len(),
{
    if s.len() == 0 {
        Seq::empty()
    } else {
        let rest = stale_hit_positions(h, s.drop_last(), lr);
        if s.last().1 == lr && spec_pos_from_hit(h, s.last().0, lr as int) is Some {
            rest.push(spec_pos_from_hit(h, s.last().0, lr as int)->0)
        } else {
            rest
        }
    }
}

pub open spec fn stale_hits(h: Seq<HistoryEntry>, bots: Seq<Bot>, rid: int) -> Seq<Pos> {
    stale_hit_positions(
        h,
        hits_enemy(events_window(h, EventKind::Hit, h.len() - 5, h.len() as int), bots),
        spec_last_round(rid) as i16,
    )
}

/// The decision ladder: what the round attacks, and the sightings it
/// leaves unused, or nothing when a kill sends it back to scanning or no
/// evidence is at hand.
///
/// The rules fire strictly in this order: an enemy death this round ends
/// pursuit; a fresh sighting is attacked at its first position; a fresh
/// hit on an enemy is attacked at its traced position; and only while the
/// previous round was attacking, its round-old sightings and then its
/// round-old hits are recovered.
pub open spec fn ladder_outcome(
    h: Seq<HistoryEntry>,
    bots: Seq<Bot>,
    reg: Seq<(Pos, bool)>,
    rid: int,
) -> Option<(Pos, Seq<Pos>)> {
    if enemy_die_this_round(h, bots) {
        None
    } else {
        let fe = fresh_echoes(h);
        if fe.len() > 0 {
            Some((fe[0], filter_ne(fe, fe[0])))
        } else {
            let he = hits_enemy(events_window(h, EventKind::Hit, h.len() - 1, h.len() as int), bots);
            if he.len() > 0 && spec_pos_from_hit(h, he[0].0, rid) is Some {
                Some((spec_pos_from_hit(h, he[0].0, rid)->0, Seq::empty()))
            } else if last_mode(h, rid) == ActionMode::Attack {
                let sl = stale_echoes(h, reg, rid);
                if sl.len() > 0 {
                    Some((sl[0], filter_ne(sl, sl[0])))
                } else {
                    let hl = stale_hits(h, bots, rid);
                    if hl.len() > 0 {
                        Some((hl[0], filter_ne(hl, hl[0])))
                    } else {
                        None
                    }
                }
            } else {
                None
            }
        }
    }
}

/// Echo evidence outranks hit evidence: whenever the round has a fresh
/// sighting and no enemy died, the ladder attacks the first sighted
/// position, whatever hits the round also brought.
pub proof fn lemma_echo_priority(
    h: Seq<HistoryEntry>,
    bots: Seq<Bot>,
    reg: Seq<(Pos, bool)>,
    rid: int,
)
    requires
        !enemy_die_this_round(h, bots),
        fresh_echoes(h).len() > 0,
    ensures
        ladder_outcome(h, bots, reg, rid) == Some(
            (fresh_echoes(h)[0], filter_ne(fresh_echoes(h), fresh_echoes(h)[0])),
        ),
{
}

/// A kill this round makes the ladder yield to scanning regardless of any
/// sighting or hit evidence.
pub proof fn lemma_kill_overrides(
    h: Seq<HistoryEntry>,
    bots: Seq<Bot>,
    reg: Seq<(Pos, bool)>,
    rid: int,
)
    requires
        enemy_die_this_round(h, bots),
    ensures
        ladder_outcome(h, bots, reg, rid) is None,
{
}

/// Histories with the same events everywhere, and the same actions and
/// decisions everywhere but at one exempt round.
pub open spec fn histories_agree_but(h1: Seq<HistoryEntry>, h2: Seq<HistoryEntry>, exempt: int) -> bool {
    &&& h1.len() == h2.len()
    &&& forall|i: int|
        0 <= i < h1.len() ==> (#[trigger] h1[i]).events == h2[i].events && h1[i].round_id
            == h2[i].round_id
    &&& forall|i: int|
        0 <= i < h1.len() && i != exempt ==> (#[trigger] h1[i]).actions == h2[i].actions
            && h1[i].decision == h2[i].decision
}

proof fn lemma_events_window_congruent(
    h1: Seq<HistoryEntry>,
    h2: Seq<HistoryEntry>,
    k: EventKind,
    cutoff: int,
    n: int,
    exempt: int,
)
    requires
        histories_agree_but(h1, h2, exempt),
    ensures
        events_window(h1, k, cutoff, n) == events_window(h2, k, cutoff, n),
    decreases n,
{
    if n > 0 {
        lemma_events_window_congruent(h1, h2, k, cutoff, n - 1, exempt);
    }
}

proof fn lemma_echo_pairs_window_congruent(
    h1: Seq<HistoryEntry>,
    h2: Seq<HistoryEntry>,
    cutoff: int,
    n: int,
    exempt: int,
)
    requires
        histories_agree_but(h1, h2, exempt),
    ensures
        echo_pairs_window(h1, cutoff, n) == echo_pairs_window(h2, cutoff, n),
    decreases n,
{
    if n > 0 {
        lemma_echo_pairs_window_congruent(h1, h2, cutoff, n - 1, exempt);
    }
}

proof fn lemma_pos_from_hit_congruent(
    h1: Seq<HistoryEntry>,
    h2: Seq<HistoryEntry>,
    ev: Event,
    round_id: int,
    exempt: int,
)
    requires
        histories_agree_but(h1, h2, exempt),
        round_id - 1 != exempt,
    ensures
        spec_pos_from_hit(h1, ev, round_id) == spec_pos_from_hit(h2, ev, round_id),
{
}

proof fn lemma_stale_hit_positions_congruent(
    h1: Seq<HistoryEntry>,
    h2: Seq<HistoryEntry>,
    s: Seq<(Event, i16)>,
    lr: i16,
    exempt: int,
)
    requires
        histories_agree_but(h1, h2, exempt),
        lr as int - 1 != exempt,
    ensures
        stale_hit_positions(h1, s, lr) == stale_hit_positions(h2, s, lr),
    decreases s.len(),
{
    if s.len() > 0 {
        lemma_stale_hit_positions_congruent(h1, h2, s.drop_last(), lr, exempt);
        lemma_pos_from_hit_congruent(h1, h2, s.last().0, lr as int, exempt);
    }
}

/// At the first round, no hit of the stale window can be traced: the round
/// it would trace into does not exist.
proof fn lemma_stale_hits_untraceable(h: Seq<HistoryEntry>, s: Seq<(Event, i16)>, lr: i16)
    requires
        lr as int - 1 < 0,
    ensures
        stale_hit_positions(h, s, lr).len() == 0,
    decreases s.len(),
{
    if s.len() > 0 {
        lemma_stale_hits_untraceable(h, s.drop_last(), lr);
    }
}

/// The ladder never reads the current round's stored actions or decision:
/// its outcome is the same whether the round has been resolved into the
/// log or not.
pub proof fn lemma_ladder_ignores_own_round(
    h1: Seq<HistoryEntry>,
    h2: Seq<HistoryEntry>,
    bots: Seq<Bot>,
    reg: Seq<(Pos, bool)>,
    rid: int,
)
    requires
        histories_agree_but(h1, h2, rid),
        rid == h1.len() - 1,
        rid >= 0,
    ensures
        ladder_outcome(h1, bots, reg, rid) == ladder_outcome(h2, bots, reg, rid),
{
    let len = h1.len() as int;
    lemma_events_window_congruent(h1, h2, EventKind::Die, len - 1, len, rid);
    lemma_echo_pairs_window_congruent(h1, h2, len - 1, len, rid);
    lemma_echo_pairs_window_congruent(h1, h2, len - 2, len, rid);
    lemma_events_window_congruent(h1, h2, EventKind::Hit, len - 1, len, rid);
    lemma_events_window_congruent(h1, h2, EventKind::Hit, len - 5, len, rid);
    let he = hits_enemy(events_window(h1, EventKind::Hit, len - 1, len), bots);
    if he.len() > 0 {
        lemma_pos_from_hit_congruent(h1, h2, he[0].0, rid, rid);
    }
    let lr = spec_last_round(rid) as i16;
    let hw = hits_enemy(events_window(h1, EventKind::Hit, len - 5, len), bots);
    if rid >= 1 {
        lemma_stale_hit_positions_congruent(h1, h2, hw, lr, rid);
        assert(last_mode(h1, rid) == last_mode(h2, rid));
    } else {
        // at the first round the stale rules can never produce a target,
        // so the previous mode, whatever either history stores, is moot
        lemma_stale_hits_untraceable(h1, hw, lr);
        lemma_stale_hits_untraceable(h2, hw, lr);
        if !enemy_die_this_round(h1, bots) && fresh_echoes(h1).len() == 0 {
            let w1 = echo_pairs_window(h1, len - 1, len);
            let w2 = echo_pairs_window(h1, len - 2, len);
            assert(echo_pairs_window(h1, len - 1, len - 1) =~= Seq::<(Pos, i16)>::empty());
            assert(echo_pairs_window(h1, len - 2, len - 1) =~= Seq::<(Pos, i16)>::empty());
            assert(w1 =~= w2);
            assert(w2.len() == 0);
            assert(stale_echo_filter(w2, reg, lr) =~= Seq::<Pos>::empty());
        }
    }
}

/// Whether entry `j` is the order slot of one of the first `k` chosen
/// bots: the first entry carrying that bot's id.
pub open spec fn targeted(acts: Seq<Action>, chosen: Seq<Bot>, k: int, j: int) -> bool {
    exists|m: int| 0 <= m < k && find_action_idx(acts, (#[trigger] chosen[m]).id) == j
}

/// How many bots the full attack spread drafts: every healthy living bot
/// when one to four are available, none otherwise.
pub open spec fn drafted_count(bots: Seq<Bot>) -> int {
    let n = healthy_live_spec(bots).len() as int;
    if 1 <= n <= 4 {
        n
    } else {
        0
    }
}

/// Every rewritten entry is an order for a living roster bot.
pub open spec fn writes_only_live(a: Seq<Action>, b: Seq<Action>, bots: Seq<Bot>) -> bool {
    forall|j: int|
        0 <= j < b.len() && #[trigger] b[j] != a[j] ==> exists|i: int|
            0 <= i < bots.len() && (#[trigger] bots[i]).alive && bots[i].id == b[j].bot_id
}

/// The bots of `s` that are not already ordered to move, in order.
pub open spec fn avail_filter(s: Seq<Bot>, acts: Seq<Action>) -> Seq<Bot>
    decreases s.len(),
{
    if s.len() == 0 {
        Seq::empty()
    } else {
        let rest = avail_filter(s.drop_last(), acts);
        let b = s.last();
        let f = find_action_idx(acts, b.id);
        if f >= 0 && acts[f].action_type != ActionKind::Move {
            rest.push(b)
        } else {
            rest
        }
    }
}

/// The living bots available to the attack-and-scan assignment: alive and
/// not already moving, in roster order.
pub open spec fn available_spec(bots: Seq<Bot>, acts: Seq<Action>) -> Seq<Bot> {
    avail_filter(live_bots_spec(bots), acts)
}

/// How many available bots get orders: one radar plus the spread, so all
/// of them up to four, and only the radar bot beyond that.
pub open spec fn scan_pairs(bots: Seq<Bot>, acts: Seq<Action>) -> int {
    let n = available_spec(bots, acts).len() as int;
    if n == 0 {
        0
    } else if n <= 4 {
        n
    } else {
        1
    }
}

/// The move filter keeps a selection of its input: every kept bot comes
/// from `s`, satisfies the keep condition, and distinct ids stay distinct.
proof fn lemma_avail_filter_props(s: Seq<Bot>, acts: Seq<Action>)
    ensures
        avail_filter(s, acts).len() <= s.len(),
        forall|i: int|
            0 <= i < avail_filter(s, acts).len() ==> exists|j: int|
                0 <= j < s.len() && #[trigger] avail_filter(s, acts)[i] == s[j],
        forall|i: int|
            0 <= i < avail_filter(s, acts).len() ==> find_action_idx(
                acts,
                (#[trigger] avail_filter(s, acts)[i]).id,
            ) >= 0 && acts[find_action_idx(acts, avail_filter(s, acts)[i].id)].action_type
                != ActionKind::Move,
        (forall|i: int, j: int| 0 <= i < j < s.len() ==> s[i].id != s[j].id) ==> forall|
            i: int,
            j: int,
        |
            0 <= i < j < avail_filter(s, acts).len() ==> avail_filter(s, acts)[i].id
                != avail_filter(s, acts)[j].id,
    decreases s.len(),
{
    if s.len() > 0 {
        lemma_avail_filter_props(s.drop_last(), acts);
        let f = avail_filter(s, acts);
        let fr = avail_filter(s.drop_last(), acts);
        assert forall|i: int| 0 <= i < f.len() implies exists|j: int|
            0 <= j < s.len() && #[trigger] f[i] == s[j] by {
            if i < fr.len() {
                assert(f[i] == fr[i]);
                let j = choose|j: int|
                    0 <= j < s.drop_last().len() && #[trigger] fr[i] == s.drop_last()[j];
                assert(f[i] == s[j]);
            } else {
                assert(f[i] == s[s.len() - 1]);
            }
        }
        assert forall|i: int| 0 <= i < f.len() implies find_action_idx(
            acts,
            (#[trigger] f[i]).id,
        ) >= 0 && acts[find_action_idx(acts, f[i].id)].action_type != ActionKind::Move by {
            if i < fr.len() {
                assert(f[i] == fr[i]);
            }
        }
        if forall|i: int, j: int| 0 <= i < j < s.len() ==> s[i].id != s[j].id {
            assert(forall|i: int, j: int|
                0 <= i < j < s.drop_last().len() ==> s.drop_last()[i].id != s.drop_last()[j].id);
            assert forall|i: int, j: int|
                0 <= i < j < f.len() implies f[i].id != f[j].id by {
                if j < fr.len() {
                    assert(f[i] == fr[i] && f[j] == fr[j]);
                } else {
                    assert(f[j] == s[s.len() - 1]);
                    assert(f[i] == fr[i]);
                    let r = choose|r: int|
                        0 <= r < s.drop_last().len() && #[trigger] fr[i] == s.drop_last()[r];
                    assert(s[r].id != s[s.len() - 1].id);
                }
            }
        }
    }
}

/// The living selection keeps distinct ids distinct.
proof fn lemma_live_bots_distinct(bots: Seq<Bot>)
    requires
        forall|i: int, j: int| 0 <= i < j < bots.len() ==> bots[i].id != bots[j].id,
    ensures
        forall|i: int, j: int|
            0 <= i < j < live_bots_spec(bots).len() ==> live_bots_spec(bots)[i].id
                != live_bots_spec(bots)[j].id,
    decreases bots.len(),
{
    if bots.len() > 0 {
        lemma_live_bots_distinct(bots.drop_last());
        lemma_live_bots_props(bots.drop_last());
        let f = live_bots_spec(bots);
        let fr = live_bots_spec(bots.drop_last());
        assert(forall|i: int, j: int|
            0 <= i < j < bots.drop_last().len() ==> bots.drop_last()[i].id != bots.drop_last()[
                j
            ].id);
        assert forall|i: int, j: int| 0 <= i < j < f.len() implies f[i].id != f[j].id by {
            if j < fr.len() {
                assert(f[i] == fr[i] && f[j] == fr[j]);
            } else {
                assert(f[j] == bots[bots.len() - 1]);
                assert(f[i] == fr[i]);
                let r = choose|r: int|
                    0 <= r < bots.drop_last().len() && #[trigger] fr[i] == bots.drop_last()[r];
                assert(bots[r].id != bots[bots.len() - 1].id);
            }
        }
    }
}

/// Action lists with equal ids everywhere.
pub open spec fn same_ids(a: Seq<Action>, b: Seq<Action>) -> bool {
    a.len() == b.len() && forall|j: int| 0 <= j < a.len() ==> (#[trigger] a[j]).bot_id == b[j].bot_id
}

/// Every bot has an action entry to amend.
pub open spec fn actions_cover(acts: Seq<Action>, bots: Seq<Bot>) -> bool {
    forall|i: int|
        0 <= i < bots.len() ==> find_action_idx(acts, (#[trigger] bots[i]).id) >= 0
}

/// What the ladder writes into an action entry: a cannon order on the
/// board, or a radar order on the board.
pub open spec fn ladder_writes_ok(a: Seq<Action>, b: Seq<Action>, field_radius: int) -> bool {
    &&& same_ids(a, b)
    &&& forall|j: int|
        0 <= j < b.len() && #[trigger] b[j] != a[j] ==> (b[j].action_type == ActionKind::Cannon
            || b[j].action_type == ActionKind::Radar) && dist(b[j].pos, spec_origo())
            <= field_radius && pos_near_board(b[j].pos)
}

/// The engine state the decision phase runs under: the invariant, plus the
/// current round already opened in history.
pub open spec fn decisions_pre(a: Ai) -> bool {
    &&& ai_wf(a)
    &&& 0 <= a.round_id
    &&& a.history@.len() == a.round_id + 1
}

/// Only the random source differs.
pub open spec fn only_rng_differs(a: Ai, b: Ai) -> bool {
    &&& b.bots == a.bots
    &&& b.round_id == a.round_id
    &&& b.radar_index == a.radar_index
    &&& b.radar_positions == a.radar_positions
    &&& b.history == a.history
    &&& b.asteroids == a.asteroids
    &&& b.config == a.config
}

/// The first components of a tagged position vector.
fn pair_firsts(v: &Vec<(Pos, i16)>) -> (out: Vec<Pos>)
    ensures
        out@ == pairs_positions(v@),
{
    let mut out: Vec<Pos> = Vec::new();
    let mut i: usize = 0;
    while i < v.len()
        invariant
            0 <= i <= v@.len(),
            out@ == pairs_positions(v@.take(i as int)),
        decreases v@.len() - i,
    {
        out.push(v[i].0);
        proof {
            assert(out@ =~= pairs_positions(v@.take(i as int + 1)));
        }
        i = i + 1;
    }
    proof {
        assert(v@.take(v@.len() as int) =~= v@);
    }
    out
}

impl Ai {
    /// The previous round, clamped at the first.
    pub(crate) fn last_round(&self) -> (r: i16)
        requires
            self.round_id >= 0,
        ensures
            r == spec_last_round(self.round_id as int),
    {
        if self.round_id - 1 >= 0 {
            self.round_id - 1
        } else {
            0
        }
    }

    /// The mode the previous round's decision recorded.
    pub(crate) fn last_action_mode(&self) -> (m: ActionMode)
        requires
            decisions_pre(*self),
        ensures
            m == last_mode(self.history@, self.round_id as int),
    {
        let lr = self.last_round();
        match self.history.get(&lr) {
            Some(entry) => entry.decision.mode,
            None => ActionMode::Nomode,
        }
    }

    /// The hits on enemy bots from the last `since` rounds.
    pub(crate) fn hits_on_enemies(&self, since: i16) -> (res: Vec<(Event, i16)>)
        requires
            ai_wf(*self),
            since >= 0,
        ensures
            res@ == hits_enemy(
                events_window(
                    self.history@,
                    EventKind::Hit,
                    self.history@.len() - since as int,
                    self.history@.len() as int,
                ),
                self.bots@,
            ),
    {
        let all = self.history.get_events(EventKind::Hit, since);
        let mut res: Vec<(Event, i16)> = Vec::new();
        let mut i: usize = 0;
        while i < all.len()
            invariant
                0 <= i <= all@.len(),
                res@ == hits_enemy(all@.take(i as int), self.bots@),
            decreases all@.len() - i,
        {
            let pair = all[i];
            proof {
                assert(all@.take(i as int + 1).drop_last() =~= all@.take(i as int));
                assert(all@.take(i as int + 1).last() == all@[i as int]);
            }
            match pair.0 {
                Event::Hit { bot_id, .. } => {
                    if !self.is_our_bot(bot_id) {
                        res.push(pair);
                    }
                },
                _ => {},
            }
            i = i + 1;
        }
        proof {
            assert(all@.take(all@.len() as int) =~= all@);
        }
        res
    }

    /// Traces a hit back to the shooter's cannon action of the round
    /// before `round_id`, when one is on record.
    pub fn get_pos_from_hit(&self, hit_event: &Event, round_id: i16) -> (r: Option<Pos>)
        requires
            ai_wf(*self),
        ensures
            r == spec_pos_from_hit(self.history@, *hit_event, round_id as int),
            r is Some ==> pos_near_board(r->0) && dist(r->0, spec_origo())
                <= self.config.field_radius,
    {
        let previous_round: i32 = round_id as i32 - 1;
        let source: i16 = match hit_event {
            Event::Hit { source, .. } => *source,
            _ => -1,
        };
        if previous_round >= 0 && (previous_round as usize) < self.history.len() {
            let prev = previous_round as i16;
            let cannons_all = self.history.get_actions_for_round(Some(ActionKind::Cannon), prev);
            let mut cannons: Vec<Action> = Vec::new();
            let mut i: usize = 0;
            while i < cannons_all.len()
                invariant
                    0 <= i <= cannons_all@.len(),
                    cannons@ == filter_actions_by_bot(cannons_all@.take(i as int), source),
                decreases cannons_all@.len() - i,
            {
                let a = cannons_all[i];
                proof {
                    assert(cannons_all@.take(i as int + 1).drop_last() =~= cannons_all@.take(
                        i as int,
                    ));
                    assert(cannons_all@.take(i as int + 1).last() == cannons_all@[i as int]);
                }
                if a.bot_id == source {
                    cannons.push(a);
                }
                i = i + 1;
            }
            proof {
                assert(cannons_all@.take(cannons_all@.len() as int) =~= cannons_all@);
            }
            if cannons.len() > 0 {
                let p = cannons[0];
                proof {
                    let s = self.history@[previous_round as int].actions@;
                    let ck = actions_of_kind(s, Some(ActionKind::Cannon));
                    let fb = filter_actions_by_bot(ck, source);
                    assert(cannons@[0] == fb[0]);
                    lemma_filter_by_bot_subset(ck, source);
                    let j = choose|j: int| 0 <= j < ck.len() && #[trigger] fb[0] == ck[j];
                    lemma_actions_of_kind_subset(s, Some(ActionKind::Cannon));
                    let m = choose|m: int| 0 <= m < s.len() && #[trigger] ck[j] == s[m];
                    assert(entry_ok(
                        self.history@[previous_round as int],
                        self.config.field_radius as int,
                    ));
                    assert(s[m].action_type == ActionKind::Cannon);
                    assert(dist(s[m].pos, spec_origo()) <= self.config.field_radius);
                }
                return Some(p.pos);
            }
            return None;
        }
        None
    }

    /// The first enemy death reported this round, if any.
    pub(crate) fn get_possible_kill(&self) -> (r: Option<Event>)
        requires
            ai_wf(*self),
        ensures
            r is Some <==> enemy_die_this_round(self.history@, self.bots@),
    {
        let dies = self.history.get_events(EventKind::Die, 1);
        let ghost w = events_window(
            self.history@,
            EventKind::Die,
            self.history@.len() - 1,
            self.history@.len() as int,
        );
        let mut i: usize = 0;
        while i < dies.len()
            invariant
                0 <= i <= dies@.len(),
                dies@ == w,
                forall|k: int|
                    0 <= k < i ==> !(match (#[trigger] w[k]).0 {
                        Event::Die { bot_id } => !is_our_bot_spec(self.bots@, bot_id),
                        _ => false,
                    }),
            decreases dies@.len() - i,
        {
            let pair = dies[i];
            proof {
                assert(w[i as int] == pair);
            }
            match pair.0 {
                Event::Die { bot_id } => {
                    if !self.is_our_bot(bot_id) {
                        return Some(pair.0);
                    }
                },
                _ => {},
            }
            i = i + 1;
        }
        None
    }

    /// The living bots healthy enough to be drafted for an attack.
    pub(crate) fn draft_healthy(&self) -> (res: Vec<Bot>)
        ensures
            res@ == healthy_live_spec(self.bots@),
    {
        let mut res: Vec<Bot> = Vec::new();
        let mut i: usize = 0;
        while i < self.bots.len()
            invariant
                0 <= i <= self.bots@.len(),
                res@ == healthy_live_spec(self.bots@.take(i as int)),
            decreases self.bots@.len() - i,
        {
            proof {
                assert(self.bots@.take(i as int + 1).drop_last() =~= self.bots@.take(i as int));
                assert(self.bots@.take(i as int + 1).last() == self.bots@[i as int]);
            }
            let b = self.bots[i];
            if b.alive && b.is_healthy() {
                res.push(b);
            }
            i = i + 1;
        }
        proof {
            assert(self.bots@.take(self.bots@.len() as int) =~= self.bots@);
        }
        res
    }

    /// Whether some living bot stands strictly within `limit` of `p`.
    fn any_live_bot_within(&self, p: Pos, limit: i16) -> (r: bool)
        requires
            ai_wf(*self),
            pos_in_range(p),
        ensures
            r == danger(self.bots@, p, limit as int),
    {
        let mut i: usize = 0;
        while i < self.bots.len()
            invariant
                0 <= i <= self.bots@.len(),
                forall|k: int|
                    0 <= k < i ==> !((#[trigger] self.bots@[k]).alive && dist(
                        self.bots@[k].pos,
                        p,
                    ) < limit),
            decreases self.bots@.len() - i,
        {
            let b = self.bots[i];
            proof {
                assert(self.bots@[i as int] == b);
            }
            if b.alive && b.pos.distance(p) < limit {
                return true;
            }
            i = i + 1;
        }
        false
    }

    /// Moves a cannon position off our own bots: if a living bot stands
    /// within blast distance, the nearest on-board hex within
    /// `cannon + 2` of the target that clears every living bot is taken
    /// instead; with none clearing, the original position stands, so
    /// firing is never suppressed.
    pub fn avoid_friendly_fire(&self, target: &Pos) -> (r: Pos)
        requires
            ai_wf(*self),
            pos_near_board(*target),
        ensures
            !danger(self.bots@, *target, self.config.cannon as int) ==> r == *target,
            r == *target || (dist(r, spec_origo()) <= self.config.field_radius && dist(*target, r)
                <= self.config.cannon + 2 && r != *target && !danger(
                self.bots@,
                r,
                self.config.cannon as int,
            )),
            (danger(self.bots@, *target, self.config.cannon as int) && exists|q: Pos|
                #[trigger] dist(*target, q) <= self.config.cannon + 2 && q != *target && dist(
                    q,
                    spec_origo(),
                ) <= self.config.field_radius && !danger(
                    self.bots@,
                    q,
                    self.config.cannon as int,
                )) ==> !danger(self.bots@, r, self.config.cannon as int),
            danger(self.bots@, *target, self.config.cannon as int) ==> forall|q: Pos|
                (#[trigger] dist(*target, q) <= self.config.cannon + 2 && q != *target && dist(
                    q,
                    spec_origo(),
                ) <= self.config.field_radius && !danger(
                    self.bots@,
                    q,
                    self.config.cannon as int,
                )) ==> dist(*target, r) <= dist(*target, q),
            pos_near_board(r),
    {
        let cannon = self.config.cannon;
        if !self.any_live_bot_within(*target, cannon) {
            return *target;
        }
        let candidates = target.clamped_neighbors(cannon + 2, self.config.field_radius);
        let mut best: Option<Pos> = None;
        let mut best_d: i16 = 0;
        let mut i: usize = 0;
        while i < candidates.len()
            invariant
                0 <= i <= candidates@.len(),
                best is Some ==> {
                    &&& candidates@.contains(best->0)
                    &&& !danger(self.bots@, best->0, self.config.cannon as int)
                    &&& best_d == dist(*target, best->0)
                },
                forall|k: int|
                    0 <= k < i && !danger(
                        self.bots@,
                        #[trigger] candidates@[k],
                        self.config.cannon as int,
                    ) ==> best is Some && dist(*target, best->0) <= dist(
                        *target,
                        candidates@[k],
                    ),
            decreases candidates@.len() - i,
        {
            let cand = candidates[i];
            proof {
                assert(candidates@[i as int] == cand);
                assert(candidates@.contains(cand));
                lemma_dist_symmetric(*target, cand);
            }
            let cd = cand.distance(*target);
            let ghost cdg = dist(*target, cand);
            proof {
                assert(cd == dist(cand, *target));
                assert(dist(cand, *target) == cdg);
            }
            if !self.any_live_bot_within(cand, cannon) {
                let take_it = match best {
                    Some(_) => cd < best_d,
                    None => true,
                };
                if take_it {
                    best = Some(cand);
                    best_d = cd;
                }
            }
            i = i + 1;
        }
        match best {
            Some(p) => {
                proof {
                    assert(candidates@.contains(p));
                    assert forall|q: Pos|
                        (#[trigger] dist(*target, q) <= self.config.cannon + 2 && q != *target
                            && dist(q, spec_origo()) <= self.config.field_radius && !danger(
                            self.bots@,
                            q,
                            self.config.cannon as int,
                        )) implies dist(*target, p) <= dist(*target, q) by {
                        lemma_dist_symmetric(*target, q);
                        assert(candidates@.contains(q));
                        let k = choose|k: int| 0 <= k < candidates@.len() && candidates@[k] == q;
                    }
                }
                p
            },
            None => {
                proof {
                    assert forall|q: Pos|
                        !(#[trigger] dist(*target, q) <= self.config.cannon + 2 && q != *target
                            && dist(q, spec_origo()) <= self.config.field_radius && !danger(
                            self.bots@,
                            q,
                            self.config.cannon as int,
                        )) by {
                        if dist(*target, q) <= self.config.cannon + 2 && q != *target && dist(
                            q,
                            spec_origo(),
                        ) <= self.config.field_radius {
                            assert(candidates@.contains(q));
                            let k = choose|k: int|
                                0 <= k < candidates@.len() && candidates@[k] == q;
                        }
                    }
                }
                *target
            },
        }
    }
}

/// The healthy-live draft is a selection from the roster.
proof fn lemma_healthy_live_props(bots: Seq<Bot>)
    ensures
        healthy_live_spec(bots).len() <= bots.len(),
        forall|i: int|
            0 <= i < healthy_live_spec(bots).len() ==> exists|j: int|
                0 <= j < bots.len() && #[trigger] healthy_live_spec(bots)[i] == bots[j],
        forall|i: int|
            0 <= i < healthy_live_spec(bots).len() ==> (#[trigger] healthy_live_spec(
                bots,
            )[i]).alive,
    decreases bots.len(),
{
    if bots.len() > 0 {
        lemma_healthy_live_props(bots.drop_last());
        let f = healthy_live_spec(bots);
        let fr = healthy_live_spec(bots.drop_last());
        assert forall|i: int| 0 <= i < f.len() implies exists|j: int|
            0 <= j < bots.len() && #[trigger] f[i] == bots[j] by {
            if i < fr.len() {
                assert(f[i] == fr[i]);
                let j = choose|j: int|
                    0 <= j < bots.drop_last().len() && #[trigger] fr[i] == bots.drop_last()[j];
                assert(f[i] == bots[j]);
            } else {
                assert(f[i] == bots[bots.len() - 1]);
            }
        }
    }
}

/// The living draft is a selection from the roster.
proof fn lemma_live_bots_props(bots: Seq<Bot>)
    ensures
        live_bots_spec(bots).len() <= bots.len(),
        forall|i: int|
            0 <= i < live_bots_spec(bots).len() ==> exists|j: int|
                0 <= j < bots.len() && #[trigger] live_bots_spec(bots)[i] == bots[j],
        forall|i: int|
            0 <= i < live_bots_spec(bots).len() ==> (#[trigger] live_bots_spec(bots)[i]).alive,
    decreases bots.len(),
{
    if bots.len() > 0 {
        lemma_live_bots_props(bots.drop_last());
        let f = live_bots_spec(bots);
        let fr = live_bots_spec(bots.drop_last());
        assert forall|i: int| 0 <= i < f.len() implies exists|j: int|
            0 <= j < bots.len() && #[trigger] f[i] == bots[j] by {
            if i < fr.len() {
                assert(f[i] == fr[i]);
                let j = choose|j: int|
                    0 <= j < bots.drop_last().len() && #[trigger] fr[i] == bots.drop_last()[j];
                assert(f[i] == bots[j]);
            } else {
                assert(f[i] == bots[bots.len() - 1]);
            }
        }
    }
}

impl Ai {
    /// Fires the full spread at a target with every healthy living bot,
    /// each position moved off friendlies and clamped onto the board.
    #[verifier::rlimit(50)]
    pub fn attack_pos(&mut self, actions: &mut Vec<Action>, target: Pos)
        requires
            ai_wf(*old(self)),
            dist(target, spec_origo()) <= old(self).config.field_radius,
            actions_cover(old(actions)@, old(self).bots@),
        ensures
            only_rng_differs(*old(self), *final(self)),
            ai_wf(*final(self)),
            ladder_writes_ok(old(actions)@, final(actions)@, old(self).config.field_radius as int),
            actions_cover(final(actions)@, final(self).bots@),
            forall|j: int|
                0 <= j < final(actions)@.len() ==> {
                    &&& (targeted(
                        old(actions)@,
                        healthy_live_spec(old(self).bots@),
                        drafted_count(old(self).bots@),
                        j,
                    ) ==> (#[trigger] final(actions)@[j]).action_type == ActionKind::Cannon && dist(
                        final(actions)@[j].pos,
                        spec_origo(),
                    ) <= old(self).config.field_radius)
                    &&& (!targeted(
                        old(actions)@,
                        healthy_live_spec(old(self).bots@),
                        drafted_count(old(self).bots@),
                        j,
                    ) ==> final(actions)@[j] == old(actions)@[j])
                },
            writes_only_live(old(actions)@, final(actions)@, old(self).bots@),
    {
        proof {
            assert(pos_near_board(target));
            lemma_healthy_live_props(self.bots@);
        }
        let radius = self.config.field_radius;
        let available_bots = self.draft_healthy();
        let bots_alive = available_bots.len() as i16;
        let spread = crate::patterns::smart_attack_spread(&mut self.rng, target, bots_alive, radius);
        let n: usize = if available_bots.len() < spread.len() {
            available_bots.len()
        } else {
            spread.len()
        };
        let ghost acts0 = old(actions)@;
        let mut k: usize = 0;
        while k < n
            invariant
                0 <= k <= n,
                n <= available_bots@.len() && n <= spread@.len(),
                available_bots@ == healthy_live_spec(old(self).bots@),
                forall|i: int|
                    0 <= i < spread@.len() ==> dist(target, #[trigger] spread@[i]) <= 2
                        && pos_in_range(spread@[i]),
                only_rng_differs(*old(self), *self),
                ai_wf(*self),
                ladder_writes_ok(acts0, actions@, old(self).config.field_radius as int),
                actions_cover(actions@, self.bots@),
                forall|j: int|
                    0 <= j < actions@.len() ==> {
                        &&& (targeted(acts0, available_bots@, k as int, j) ==> (
                        #[trigger] actions@[j]).action_type == ActionKind::Cannon && dist(
                            actions@[j].pos,
                            spec_origo(),
                        ) <= old(self).config.field_radius)
                        &&& (!targeted(acts0, available_bots@, k as int, j) ==> actions@[j]
                            == acts0[j])
                    },
            decreases n - k,
        {
            let bot_id = available_bots[k].id;
            let sp = spread[k];
            proof {
                assert(spread@[k as int] == sp);
                lemma_dist_triangle(sp, target, spec_origo());
                lemma_dist_symmetric(target, sp);
                assert(dist(sp, spec_origo()) <= 2 + old(self).config.field_radius);
                assert(pos_near_board(sp));
            }
            let p = self.avoid_friendly_fire(&sp);
            let cp = p.clamp(&radius);
            proof {
                assert(available_bots@[k as int] == healthy_live_spec(old(self).bots@)[k as int]);
                let j = choose|j: int|
                    0 <= j < old(self).bots@.len() && #[trigger] healthy_live_spec(
                        old(self).bots@,
                    )[k as int] == old(self).bots@[j];
                assert(find_action_idx(acts0, bot_id) >= 0);
                lemma_find_action_idx_ids(acts0, actions@, bot_id);
                lemma_find_action_idx(actions@, bot_id);
            }
            let ghost before = actions@;
            actions.set_action_for(bot_id, ActionKind::Cannon, cp);
            proof {
                let f = find_action_idx(before, bot_id);
                assert(actions@ == before.update(f, Action {
                    bot_id,
                    action_type: ActionKind::Cannon,
                    pos: cp,
                }));
                assert(before[f].bot_id == bot_id);
                assert forall|j: int| 0 <= j < actions@.len() implies (#[trigger] actions@[j]).bot_id
                    == acts0[j].bot_id by {
                    if j != f {
                        assert(actions@[j] == before[j]);
                    }
                }
                assert forall|i: int|
                    0 <= i < self.bots@.len() implies find_action_idx(
                    actions@,
                    (#[trigger] self.bots@[i]).id,
                ) >= 0 by {
                    lemma_find_action_idx_ids(acts0, actions@, self.bots@[i].id);
                    lemma_find_action_idx_ids(acts0, before, self.bots@[i].id);
                }
                lemma_find_action_idx(acts0, bot_id);
                let f0 = find_action_idx(acts0, bot_id);
                assert(f == f0);
                assert forall|j: int| 0 <= j < actions@.len() implies {
                    &&& (targeted(acts0, available_bots@, k as int + 1, j) ==> (
                    #[trigger] actions@[j]).action_type == ActionKind::Cannon && dist(
                        actions@[j].pos,
                        spec_origo(),
                    ) <= old(self).config.field_radius)
                    &&& (!targeted(acts0, available_bots@, k as int + 1, j) ==> actions@[j]
                        == acts0[j])
                } by {
                    if j == f0 {
                        assert(find_action_idx(acts0, (available_bots@[k as int]).id) == j);
                        assert(targeted(acts0, available_bots@, k as int + 1, j));
                    } else {
                        assert(actions@[j] == before[j]);
                        if targeted(acts0, available_bots@, k as int + 1, j) {
                            let m = choose|m: int|
                                0 <= m < k as int + 1 && find_action_idx(
                                    acts0,
                                    (#[trigger] available_bots@[m]).id,
                                ) == j;
                            if m < k as int {
                                assert(targeted(acts0, available_bots@, k as int, j));
                            }
                        } else {
                            if targeted(acts0, available_bots@, k as int, j) {
                                let m = choose|m: int|
                                    0 <= m < k as int && find_action_idx(
                                        acts0,
                                        (#[trigger] available_bots@[m]).id,
                                    ) == j;
                                assert(targeted(acts0, available_bots@, k as int + 1, j));
                            }
                        }
                    }
                }
            }
            k = k + 1;
        }
        proof {
            assert(n as int == drafted_count(old(self).bots@));
            assert forall|j: int|
                0 <= j < actions@.len() && #[trigger] actions@[j] != acts0[j] implies exists|i: int|
                0 <= i < old(self).bots@.len() && (#[trigger] old(self).bots@[i]).alive && old(
                self,
            ).bots@[i].id == actions@[j].bot_id by {
                assert(targeted(acts0, available_bots@, n as int, j));
                let m = choose|m: int|
                    0 <= m < n as int && find_action_idx(
                        acts0,
                        (#[trigger] available_bots@[m]).id,
                    ) == j;
                lemma_find_action_idx(acts0, available_bots@[m].id);
                assert(acts0[j].bot_id == available_bots@[m].id);
                let i = choose|i: int|
                    0 <= i < old(self).bots@.len() && #[trigger] healthy_live_spec(
                        old(self).bots@,
                    )[m] == old(self).bots@[i];
                assert(old(self).bots@[i].alive);
            }
        }
    }

    /// Reserves the first available bot to re-radar the exact target while
    /// the rest fire the spread around it, positions moved off friendlies
    /// and clamped onto the board.
    #[verifier::rlimit(50)]
    pub fn attack_and_scan_pos(&mut self, actions: &mut Vec<Action>, target: Pos)
        requires
            ai_wf(*old(self)),
            dist(target, spec_origo()) <= old(self).config.field_radius,
            actions_cover(old(actions)@, old(self).bots@),
        ensures
            only_rng_differs(*old(self), *final(self)),
            ai_wf(*final(self)),
            ladder_writes_ok(old(actions)@, final(actions)@, old(self).config.field_radius as int),
            actions_cover(final(actions)@, final(self).bots@),
            forall|j: int|
                0 <= j < final(actions)@.len() ==> {
                    let avail = available_spec(old(self).bots@, old(actions)@);
                    let k2 = scan_pairs(old(self).bots@, old(actions)@);
                    &&& (k2 > 0 && j == find_action_idx(old(actions)@, avail[0].id) ==> (
                    #[trigger] final(actions)@[j]).action_type == ActionKind::Radar
                        && final(actions)@[j].pos == target)
                    &&& ((exists|m: int|
                        1 <= m < k2 && find_action_idx(old(actions)@, (#[trigger] avail[m]).id)
                            == j) ==> final(actions)@[j].action_type == ActionKind::Cannon && dist(
                        final(actions)@[j].pos,
                        spec_origo(),
                    ) <= old(self).config.field_radius)
                    &&& (!(k2 > 0 && j == find_action_idx(old(actions)@, avail[0].id)) && !(
                    exists|m: int|
                        1 <= m < k2 && find_action_idx(old(actions)@, (#[trigger] avail[m]).id)
                            == j) ==> final(actions)@[j] == old(actions)@[j])
                },
            writes_only_live(old(actions)@, final(actions)@, old(self).bots@),
    {
        proof {
            assert(pos_near_board(target));
            lemma_live_bots_props(self.bots@);
            lemma_live_bots_distinct(self.bots@);
        }
        let ghost acts0 = old(actions)@;
        let radius = self.config.field_radius;
        let live = self.get_live_bots();
        let mut available_bots: Vec<Bot> = Vec::new();
        let mut i: usize = 0;
        while i < live.len()
            invariant
                0 <= i <= live@.len(),
                live@ == live_bots_spec(self.bots@),
                available_bots@ == avail_filter(live@.take(i as int), acts0),
                actions@ == acts0,
            decreases live@.len() - i,
        {
            let b = live[i];
            proof {
                assert(live@[i as int] == b);
                assert(live@.take(i as int + 1).drop_last() =~= live@.take(i as int));
                assert(live@.take(i as int + 1).last() == live@[i as int]);
                lemma_find_action_idx(actions@, b.id);
            }
            let keep = match actions.get_action(b.id) {
                Some(a) => {
                    let moving = match a.action_type {
                        ActionKind::Move => true,
                        _ => false,
                    };
                    !moving
                },
                None => false,
            };
            if keep {
                available_bots.push(b);
            }
            i = i + 1;
        }
        proof {
            assert(live@.take(live@.len() as int) =~= live@);
            assert(available_bots@ == available_spec(old(self).bots@, acts0));
            lemma_avail_filter_props(live@, acts0);
            assert(available_bots@.len() <= 1000);
        }
        let available_bot_count = available_bots.len() as i16;
        let mut positions: Vec<Pos> = vec![target];
        let mut spread = crate::patterns::smart_attack_spread(
            &mut self.rng,
            target,
            available_bot_count,
            radius,
        );
        let ghost spread0 = spread@;
        positions.append(&mut spread);
        proof {
            assert(positions@[0] == target);
            assert(positions@.len() == 1 + spread0.len());
            assert forall|m: int| 1 <= m < positions@.len() implies dist(
                target,
                #[trigger] positions@[m],
            ) <= 2 && pos_in_range(positions@[m]) by {
                assert(positions@[m] == spread0[m - 1]);
            }
        }
        let n: usize = if available_bots.len() < positions.len() {
            available_bots.len()
        } else {
            positions.len()
        };
        proof {
            assert(n as int == scan_pairs(old(self).bots@, acts0));
        }
        let mut k: usize = 0;
        while k < n
            invariant
                0 <= k <= n,
                n <= available_bots@.len() && n <= positions@.len(),
                positions@[0] == target,
                available_bots@ == available_spec(old(self).bots@, acts0),
                forall|m: int|
                    1 <= m < positions@.len() ==> dist(target, #[trigger] positions@[m]) <= 2
                        && pos_in_range(positions@[m]),
                forall|m: int|
                    0 <= m < available_bots@.len() ==> find_action_idx(
                        acts0,
                        (#[trigger] available_bots@[m]).id,
                    ) >= 0,
                forall|m1: int, m2: int|
                    0 <= m1 < m2 < available_bots@.len() ==> available_bots@[m1].id
                        != available_bots@[m2].id,
                only_rng_differs(*old(self), *self),
                ai_wf(*self),
                ladder_writes_ok(acts0, actions@, old(self).config.field_radius as int),
                actions_cover(actions@, self.bots@),
                forall|j: int|
                    0 <= j < actions@.len() ==> {
                        &&& (k > 0 && j == find_action_idx(acts0, available_bots@[0].id) ==> (
                        #[trigger] actions@[j]).action_type == ActionKind::Radar && actions@[j].pos
                            == target)
                        &&& ((exists|m: int|
                            1 <= m < k && find_action_idx(
                                acts0,
                                (#[trigger] available_bots@[m]).id,
                            ) == j) ==> actions@[j].action_type == ActionKind::Cannon && dist(
                            actions@[j].pos,
                            spec_origo(),
                        ) <= old(self).config.field_radius)
                        &&& (!(k > 0 && j == find_action_idx(acts0, available_bots@[0].id)) && !(
                        exists|m: int|
                            1 <= m < k && find_action_idx(
                                acts0,
                                (#[trigger] available_bots@[m]).id,
                            ) == j) ==> actions@[j] == acts0[j])
                    },
            decreases n - k,
        {
            let bot_id = available_bots[k].id;
            proof {
                assert(find_action_idx(acts0, bot_id) >= 0);
                lemma_find_action_idx_ids(acts0, actions@, bot_id);
                lemma_find_action_idx(actions@, bot_id);
                lemma_find_action_idx(acts0, bot_id);
            }
            let ghost before = actions@;
            if k == 0 {
                actions.set_action_for(bot_id, ActionKind::Radar, target);
            } else {
                let sp = positions[k];
                proof {
                    lemma_dist_triangle(sp, target, spec_origo());
                    lemma_dist_symmetric(target, sp);
                    assert(pos_near_board(sp));
                }
                let p = self.avoid_friendly_fire(&sp);
                let cp = p.clamp(&radius);
                actions.set_action_for(bot_id, ActionKind::Cannon, cp);
            }
            proof {
                let f = find_action_idx(before, bot_id);
                let f0 = find_action_idx(acts0, bot_id);
                assert(f == f0);
                assert(before[f].bot_id == bot_id);
                assert forall|j: int| 0 <= j < actions@.len() implies (#[trigger] actions@[j]).bot_id
                    == acts0[j].bot_id by {
                    if j != f {
                        assert(actions@[j] == before[j]);
                    }
                }
                assert forall|i2: int|
                    0 <= i2 < self.bots@.len() implies find_action_idx(
                    actions@,
                    (#[trigger] self.bots@[i2]).id,
                ) >= 0 by {
                    lemma_find_action_idx_ids(acts0, actions@, self.bots@[i2].id);
                    lemma_find_action_idx_ids(acts0, before, self.bots@[i2].id);
                }
                let slot0 = find_action_idx(acts0, available_bots@[0].id);
                assert forall|j: int| 0 <= j < actions@.len() implies {
                    &&& (k as int + 1 > 0 && j == slot0 ==> (#[trigger] actions@[j]).action_type
                        == ActionKind::Radar && actions@[j].pos == target)
                    &&& ((exists|m: int|
                        1 <= m < k as int + 1 && find_action_idx(
                            acts0,
                            (#[trigger] available_bots@[m]).id,
                        ) == j) ==> actions@[j].action_type == ActionKind::Cannon && dist(
                        actions@[j].pos,
                        spec_origo(),
                    ) <= old(self).config.field_radius)
                    &&& (!(j == slot0) && !(exists|m: int|
                        1 <= m < k as int + 1 && find_action_idx(
                            acts0,
                            (#[trigger] available_bots@[m]).id,
                        ) == j) ==> actions@[j] == acts0[j])
                } by {
                    if k == 0 {
                        if j == f0 {
                            assert(j == slot0);
                        } else {
                            assert(actions@[j] == before[j]);
                        }
                    } else {
                        // cannon slots never collide with the radar slot:
                        // the available ids are pairwise distinct
                        lemma_find_action_idx(acts0, available_bots@[0].id);
                        assert(available_bots@[k as int].id != available_bots@[0].id);
                        assert(acts0[f0].bot_id == bot_id);
                        assert(f0 != slot0);
                        if j == f0 {
                            assert(find_action_idx(
                                acts0,
                                (available_bots@[k as int]).id,
                            ) == j);
                            assert(exists|m: int|
                                1 <= m < k as int + 1 && find_action_idx(
                                    acts0,
                                    (#[trigger] available_bots@[m]).id,
                                ) == j);
                        } else {
                            assert(actions@[j] == before[j]);
                            if exists|m: int|
                                1 <= m < k as int + 1 && find_action_idx(
                                    acts0,
                                    (#[trigger] available_bots@[m]).id,
                                ) == j {
                                let m = choose|m: int|
                                    1 <= m < k as int + 1 && find_action_idx(
                                        acts0,
                                        (#[trigger] available_bots@[m]).id,
                                    ) == j;
                                if m < k as int {
                                    assert(exists|m2: int|
                                        1 <= m2 < k as int && find_action_idx(
                                            acts0,
                                            (#[trigger] available_bots@[m2]).id,
                                        ) == j);
                                }
                            } else {
                                if exists|m: int|
                                    1 <= m < k as int && find_action_idx(
                                        acts0,
                                        (#[trigger] available_bots@[m]).id,
                                    ) == j {
                                    let m = choose|m: int|
                                        1 <= m < k as int && find_action_idx(
                                            acts0,
                                            (#[trigger] available_bots@[m]).id,
                                        ) == j;
                                    assert(exists|m2: int|
                                        1 <= m2 < k as int + 1 && find_action_idx(
                                            acts0,
                                            (#[trigger] available_bots@[m2]).id,
                                        ) == j);
                                }
                            }
                        }
                    }
                }
            }
            k = k + 1;
        }
        proof {
            assert forall|j: int|
                0 <= j < actions@.len() && #[trigger] actions@[j] != acts0[j] implies exists|i: int|
                0 <= i < old(self).bots@.len() && (#[trigger] old(self).bots@[i]).alive && old(
                self,
            ).bots@[i].id == actions@[j].bot_id by {
                let slot0 = find_action_idx(acts0, available_bots@[0].id);
                if n > 0 && j == slot0 {
                    lemma_find_action_idx(acts0, available_bots@[0].id);
                    assert(acts0[j].bot_id == available_bots@[0].id);
                    let r = choose|r: int|
                        0 <= r < live@.len() && #[trigger] available_bots@[0] == live@[r];
                    let i2 = choose|i2: int|
                        0 <= i2 < old(self).bots@.len() && #[trigger] live_bots_spec(
                            old(self).bots@,
                        )[r] == old(self).bots@[i2];
                    assert(old(self).bots@[i2].alive);
                } else {
                    assert(exists|m: int|
                        1 <= m < n as int && find_action_idx(
                            acts0,
                            (#[trigger] available_bots@[m]).id,
                        ) == j);
                    let m = choose|m: int|
                        1 <= m < n as int && find_action_idx(
                            acts0,
                            (#[trigger] available_bots@[m]).id,
                        ) == j;
                    lemma_find_action_idx(acts0, available_bots@[m].id);
                    assert(acts0[j].bot_id == available_bots@[m].id);
                    let r = choose|r: int|
                        0 <= r < live@.len() && #[trigger] available_bots@[m] == live@[r];
                    let i2 = choose|i2: int|
                        0 <= i2 < old(self).bots@.len() && #[trigger] live_bots_spec(
                            old(self).bots@,
                        )[r] == old(self).bots@[i2];
                    assert(old(self).bots@[i2].alive);
                }
            }
        }
    }
}

impl Ai {
    /// Rule one of the ladder: an enemy death this round ends pursuit and
    /// yields to scanning.
    fn killed_exit_code(&self) -> (r: Option<bool>)
        requires
            ai_wf(*self),
        ensures
            r == if enemy_die_this_round(self.history@, self.bots@) {
                Some(false)
            } else {
                None::<bool>
            },
    {
        match self.get_possible_kill() {
            Some(_) => Some(false),
            None => None,
        }
    }

    /// Rule two: a sighting this round is attacked at its first position;
    /// with one bot reserved to re-radar it if the previous round was
    /// already scanning, else with the full spread.  The other sightings
    /// are recorded as unused.
    fn shoot_echoes_exit_code(&mut self, actions: &mut Vec<Action>, decision: &mut Decision) -> (r:
        Option<bool>)
        requires
            decisions_pre(*old(self)),
            actions_cover(old(actions)@, old(self).bots@),
        ensures
            only_rng_differs(*old(self), *final(self)),
            ai_wf(*final(self)),
            decisions_pre(*final(self)),
            ladder_writes_ok(old(actions)@, final(actions)@, old(self).config.field_radius as int),
            actions_cover(final(actions)@, final(self).bots@),
            writes_only_live(old(actions)@, final(actions)@, old(self).bots@),
            fresh_echoes(old(self).history@).len() == 0 ==> r is None && *final(decision) == *old(
                decision,
            ) && final(actions)@ == old(actions)@,
            fresh_echoes(old(self).history@).len() > 0 ==> {
                let fe = fresh_echoes(old(self).history@);
                &&& r == Some(true)
                &&& final(decision).mode == ActionMode::Attack
                &&& final(decision).target == Some(fe[0])
                &&& final(decision).unused_echoes@ == filter_ne(fe, fe[0])
                &&& forall|j: int|
                    0 <= j < final(decision).unused_echoes@.len() ==> dist(
                        #[trigger] final(decision).unused_echoes@[j],
                        spec_origo(),
                    ) <= old(self).config.field_radius
                &&& final(decision).target is Some ==> dist(final(decision).target->0, spec_origo())
                    <= old(self).config.field_radius
            },
    {
        let pairs = self.history.get_echo_positions(1);
        let see_positions = pair_firsts(&pairs);
        proof {
            lemma_echo_pairs_window_bound(
                self.history@,
                self.history@.len() - 1,
                self.history@.len() as int,
                self.config.field_radius as int,
            );
            assert forall|j: int| 0 <= j < see_positions@.len() implies dist(
                #[trigger] see_positions@[j],
                spec_origo(),
            ) <= self.config.field_radius by {
                assert(see_positions@[j] == pairs@[j].0);
            }
        }
        if see_positions.len() > 0 {
            let p0 = see_positions[0];
            proof {
                assert(see_positions@[0] == p0);
            }
            let lm = self.last_action_mode();
            let scanning = match lm {
                ActionMode::Scan => true,
                _ => false,
            };
            if scanning {
                self.attack_and_scan_pos(actions, p0);
            } else {
                self.attack_pos(actions, p0);
            }
            decision.add_attack_decision(&p0, &see_positions);
            proof {
                lemma_filter_ne_subset(see_positions@, p0);
                assert forall|j: int| 0 <= j < final(decision).unused_echoes@.len() implies dist(
                    #[trigger] final(decision).unused_echoes@[j],
                    spec_origo(),
                ) <= old(self).config.field_radius by {
                    let m = choose|m: int|
                        0 <= m < see_positions@.len() && #[trigger] filter_ne(
                            see_positions@,
                            p0,
                        )[j] == see_positions@[m];
                }
            }
            Some(true)
        } else {
            None
        }
    }

    /// Rule three: a fresh hit on an enemy is traced to the shooter's
    /// previous cannon position and attacked with the full spread.
    fn shoot_hits_exit_code(&mut self, actions: &mut Vec<Action>, decision: &mut Decision) -> (r:
        Option<bool>)
        requires
            decisions_pre(*old(self)),
            actions_cover(old(actions)@, old(self).bots@),
        ensures
            only_rng_differs(*old(self), *final(self)),
            ai_wf(*final(self)),
            decisions_pre(*final(self)),
            ladder_writes_ok(old(actions)@, final(actions)@, old(self).config.field_radius as int),
            actions_cover(final(actions)@, final(self).bots@),
            writes_only_live(old(actions)@, final(actions)@, old(self).bots@),
            ({
                let he = hits_enemy(
                    events_window(
                        old(self).history@,
                        EventKind::Hit,
                        old(self).history@.len() - 1,
                        old(self).history@.len() as int,
                    ),
                    old(self).bots@,
                );
                if he.len() > 0 && spec_pos_from_hit(
                    old(self).history@,
                    he[0].0,
                    old(self).round_id as int,
                ) is Some {
                    let t = spec_pos_from_hit(old(self).history@, he[0].0, old(self).round_id as int)->0;
                    &&& r == Some(true)
                    &&& final(decision).mode == ActionMode::Attack
                    &&& final(decision).target == Some(t)
                    &&& final(decision).unused_echoes@ == Seq::<Pos>::empty()
                    &&& dist(t, spec_origo()) <= old(self).config.field_radius
                } else {
                    &&& r is None
                    &&& *final(decision) == *old(decision)
                    &&& final(actions)@ == old(actions)@
                }
            }),
    {
        let hit_events = self.hits_on_enemies(1);
        if hit_events.len() > 0 {
            let first = hit_events[0];
            proof {
                assert(hit_events@[0] == first);
            }
            match self.get_pos_from_hit(&first.0, self.round_id) {
                Some(pos) => {
                    let empty: Vec<Pos> = Vec::new();
                    decision.add_attack_decision(&pos, &empty);
                    proof {
                        assert(filter_ne(empty@, pos) =~= Seq::<Pos>::empty());
                    }
                    self.attack_pos(actions, pos);
                    Some(true)
                },
                None => None,
            }
        } else {
            None
        }
    }

    /// Rule four, first half: with the previous round in attack mode, its
    /// sightings that are not confirmed asteroids are re-attacked with one
    /// bot re-radaring.
    fn see_lastround_exit_code(&mut self, actions: &mut Vec<Action>, decision: &mut Decision) -> (r:
        Option<bool>)
        requires
            decisions_pre(*old(self)),
            actions_cover(old(actions)@, old(self).bots@),
        ensures
            only_rng_differs(*old(self), *final(self)),
            ai_wf(*final(self)),
            decisions_pre(*final(self)),
            ladder_writes_ok(old(actions)@, final(actions)@, old(self).config.field_radius as int),
            actions_cover(final(actions)@, final(self).bots@),
            writes_only_live(old(actions)@, final(actions)@, old(self).bots@),
            ({
                let sl = stale_echoes(
                    old(self).history@,
                    old(self).asteroids@,
                    old(self).round_id as int,
                );
                if sl.len() > 0 {
                    &&& r == Some(true)
                    &&& final(decision).mode == ActionMode::Attack
                    &&& final(decision).target == Some(sl[0])
                    &&& final(decision).unused_echoes@ == filter_ne(sl, sl[0])
                    &&& dist(sl[0], spec_origo()) <= old(self).config.field_radius
                    &&& forall|j: int|
                        0 <= j < final(decision).unused_echoes@.len() ==> dist(
                            #[trigger] final(decision).unused_echoes@[j],
                            spec_origo(),
                        ) <= old(self).config.field_radius
                } else {
                    &&& r is None
                    &&& *final(decision) == *old(decision)
                    &&& final(actions)@ == old(actions)@
                }
            }),
    {
        let pairs = self.history.get_echo_positions(2);
        let lr = self.last_round();
        let mut sl: Vec<Pos> = Vec::new();
        proof {
            lemma_echo_pairs_window_bound(
                self.history@,
                self.history@.len() - 2,
                self.history@.len() as int,
                self.config.field_radius as int,
            );
        }
        let mut i: usize = 0;
        while i < pairs.len()
            invariant
                0 <= i <= pairs@.len(),
                sl@ == stale_echo_filter(pairs@.take(i as int), self.asteroids@, lr),
                forall|j: int|
                    0 <= j < sl@.len() ==> dist(#[trigger] sl@[j], spec_origo())
                        <= self.config.field_radius,
                forall|j: int|
                    0 <= j < pairs@.len() ==> dist((#[trigger] pairs@[j]).0, spec_origo())
                        <= self.config.field_radius,
            decreases pairs@.len() - i,
        {
            let pair = pairs[i];
            proof {
                assert(pairs@.take(i as int + 1).drop_last() =~= pairs@.take(i as int));
                assert(pairs@.take(i as int + 1).last() == pairs@[i as int]);
            }
            if pair.1 == lr && !self.asteroids.is_asteroid(pair.0) {
                sl.push(pair.0);
            }
            i = i + 1;
        }
        proof {
            assert(pairs@.take(pairs@.len() as int) =~= pairs@);
        }
        if sl.len() > 0 {
            let p0 = sl[0];
            proof {
                assert(sl@[0] == p0);
                lemma_filter_ne_subset(sl@, p0);
            }
            decision.add_attack_decision(&p0, &sl);
            proof {
                assert forall|j: int| 0 <= j < final(decision).unused_echoes@.len() implies dist(
                    #[trigger] final(decision).unused_echoes@[j],
                    spec_origo(),
                ) <= old(self).config.field_radius by {
                    let m = choose|m: int|
                        0 <= m < sl@.len() && #[trigger] filter_ne(sl@, p0)[j] == sl@[m];
                }
            }
            self.attack_and_scan_pos(actions, p0);
            Some(true)
        } else {
            None
        }
    }

    /// Rule four, second half: with the previous round in attack mode, its
    /// traceable hits are re-attacked with one bot re-radaring.
    fn hit_lastround_exit_code(&mut self, actions: &mut Vec<Action>, decision: &mut Decision) -> (r:
        Option<bool>)
        requires
            decisions_pre(*old(self)),
            actions_cover(old(actions)@, old(self).bots@),
        ensures
            only_rng_differs(*old(self), *final(self)),
            ai_wf(*final(self)),
            decisions_pre(*final(self)),
            ladder_writes_ok(old(actions)@, final(actions)@, old(self).config.field_radius as int),
            actions_cover(final(actions)@, final(self).bots@),
            writes_only_live(old(actions)@, final(actions)@, old(self).bots@),
            ({
                let hl = stale_hits(old(self).history@, old(self).bots@, old(self).round_id as int);
                if hl.len() > 0 {
                    &&& r == Some(true)
                    &&& final(decision).mode == ActionMode::Attack
                    &&& final(decision).target == Some(hl[0])
                    &&& final(decision).unused_echoes@ == filter_ne(hl, hl[0])
                    &&& dist(hl[0], spec_origo()) <= old(self).config.field_radius
                    &&& forall|j: int|
                        0 <= j < final(decision).unused_echoes@.len() ==> dist(
                            #[trigger] final(decision).unused_echoes@[j],
                            spec_origo(),
                        ) <= old(self).config.field_radius
                } else {
                    &&& r is None
                    &&& *final(decision) == *old(decision)
                    &&& final(actions)@ == old(actions)@
                }
            }),
    {
        let hit_events = self.hits_on_enemies(5);
        let lr = self.last_round();
        let mut hl: Vec<Pos> = Vec::new();
        let mut i: usize = 0;
        while i < hit_events.len()
            invariant
                0 <= i <= hit_events@.len(),
                hl@ == stale_hit_positions(self.history@, hit_events@.take(i as int), lr),
                forall|j: int|
                    0 <= j < hl@.len() ==> dist(#[trigger] hl@[j], spec_origo())
                        <= self.config.field_radius,
            decreases hit_events@.len() - i,
        {
            let pair = hit_events[i];
            proof {
                assert(hit_events@.take(i as int + 1).drop_last() =~= hit_events@.take(i as int));
                assert(hit_events@.take(i as int + 1).last() == hit_events@[i as int]);
            }
            if pair.1 == lr {
                match self.get_pos_from_hit(&pair.0, lr) {
                    Some(p) => {
                        hl.push(p);
                    },
                    None => {},
                }
            }
            i = i + 1;
        }
        proof {
            assert(hit_events@.take(hit_events@.len() as int) =~= hit_events@);
        }
        if hl.len() > 0 {
            let p0 = hl[0];
            proof {
                assert(hl@[0] == p0);
                lemma_filter_ne_subset(hl@, p0);
            }
            decision.add_attack_decision(&p0, &hl);
            proof {
                assert forall|j: int| 0 <= j < final(decision).unused_echoes@.len() implies dist(
                    #[trigger] final(decision).unused_echoes@[j],
                    spec_origo(),
                ) <= old(self).config.field_radius by {
                    let m = choose|m: int|
                        0 <= m < hl@.len() && #[trigger] filter_ne(hl@, p0)[j] == hl@[m];
                }
            }
            self.attack_and_scan_pos(actions, p0);
            Some(true)
        } else {
            None
        }
    }

    /// Rule four: only while the previous round was attacking, recover its
    /// round-old sightings, then its round-old hits.
    fn shoot_history_exit_code(&mut self, actions: &mut Vec<Action>, decision: &mut Decision) -> (r:
        Option<bool>)
        requires
            decisions_pre(*old(self)),
            actions_cover(old(actions)@, old(self).bots@),
        ensures
            only_rng_differs(*old(self), *final(self)),
            ai_wf(*final(self)),
            decisions_pre(*final(self)),
            ladder_writes_ok(old(actions)@, final(actions)@, old(self).config.field_radius as int),
            actions_cover(final(actions)@, final(self).bots@),
            writes_only_live(old(actions)@, final(actions)@, old(self).bots@),
            ({
                let h = old(self).history@;
                let rid = old(self).round_id as int;
                if last_mode(h, rid) != ActionMode::Attack {
                    r is None && *final(decision) == *old(decision) && final(actions)@ == old(
                        actions,
                    )@
                } else {
                    let sl = stale_echoes(h, old(self).asteroids@, rid);
                    let hl = stale_hits(h, old(self).bots@, rid);
                    if sl.len() > 0 {
                        &&& r == Some(true)
                        &&& final(decision).mode == ActionMode::Attack
                        &&& final(decision).target == Some(sl[0])
                        &&& final(decision).unused_echoes@ == filter_ne(sl, sl[0])
                        &&& dist(sl[0], spec_origo()) <= old(self).config.field_radius
                        &&& forall|j: int|
                            0 <= j < final(decision).unused_echoes@.len() ==> dist(
                                #[trigger] final(decision).unused_echoes@[j],
                                spec_origo(),
                            ) <= old(self).config.field_radius
                    } else if hl.len() > 0 {
                        &&& r == Some(true)
                        &&& final(decision).mode == ActionMode::Attack
                        &&& final(decision).target == Some(hl[0])
                        &&& final(decision).unused_echoes@ == filter_ne(hl, hl[0])
                        &&& dist(hl[0], spec_origo()) <= old(self).config.field_radius
                        &&& forall|j: int|
                            0 <= j < final(decision).unused_echoes@.len() ==> dist(
                                #[trigger] final(decision).unused_echoes@[j],
                                spec_origo(),
                            ) <= old(self).config.field_radius
                    } else {
                        r is None && *final(decision) == *old(decision) && final(actions)@ == old(
                            actions,
                        )@
                    }
                }
            }),
    {
        let lm = self.last_action_mode();
        let attacking = match lm {
            ActionMode::Attack => true,
            _ => false,
        };
        if attacking {
            match self.see_lastround_exit_code(actions, decision) {
                Some(b) => {
                    return Some(b);
                },
                None => {},
            }
            match self.hit_lastround_exit_code(actions, decision) {
                Some(b) => {
                    return Some(b);
                },
                None => {},
            }
            return None;
        }
        None
    }

    /// The attack half of the decision ladder, rules taken strictly in
    /// order; yields the round to scanning when no rule fires.
    pub fn aggressive_attack_strategy(
        &mut self,
        actions: &mut Vec<Action>,
        decision: &mut Decision,
    ) -> (r: bool)
        requires
            decisions_pre(*old(self)),
            actions_cover(old(actions)@, old(self).bots@),
        ensures
            only_rng_differs(*old(self), *final(self)),
            ai_wf(*final(self)),
            decisions_pre(*final(self)),
            ladder_writes_ok(old(actions)@, final(actions)@, old(self).config.field_radius as int),
            actions_cover(final(actions)@, final(self).bots@),
            writes_only_live(old(actions)@, final(actions)@, old(self).bots@),
            r == (ladder_outcome(
                old(self).history@,
                old(self).bots@,
                old(self).asteroids@,
                old(self).round_id as int,
            ) is Some),
            ({
                let o = ladder_outcome(
                    old(self).history@,
                    old(self).bots@,
                    old(self).asteroids@,
                    old(self).round_id as int,
                );
                match o {
                    Some(tu) => {
                        &&& final(decision).mode == ActionMode::Attack
                        &&& final(decision).target == Some(tu.0)
                        &&& final(decision).unused_echoes@ == tu.1
                        &&& dist(tu.0, spec_origo()) <= old(self).config.field_radius
                        &&& forall|j: int|
                            0 <= j < tu.1.len() ==> dist(#[trigger] tu.1[j], spec_origo()) <= old(
                                self,
                            ).config.field_radius
                    },
                    None => {
                        &&& *final(decision) == *old(decision)
                        &&& final(actions)@ == old(actions)@
                    },
                }
            }),
    {
        match self.killed_exit_code() {
            Some(exc) => {
                return exc;
            },
            None => {},
        }
        match self.shoot_echoes_exit_code(actions, decision) {
            Some(exc) => {
                return exc;
            },
            None => {},
        }
        match self.shoot_hits_exit_code(actions, decision) {
            Some(exc) => {
                return exc;
            },
            None => {},
        }
        match self.shoot_history_exit_code(actions, decision) {
            Some(exc) => {
                return exc;
            },
            None => {},
        }
        false
    }
}

/// How many bots are alive and not already ordered to move.
pub open spec fn available_for_attack(bots: Seq<Bot>, acts: Seq<Action>) -> int
    decreases bots.len(),
{
    if bots.len() == 0 {
        0
    } else {
        let rest = available_for_attack(bots.drop_last(), acts);
        let b = bots.last();
        let f = find_action_idx(acts, b.id);
        rest + if b.alive && f >= 0 && acts[f].action_type != ActionKind::Move {
            1int
        } else {
            0int
        }
    }
}

impl Ai {
    /// The number of bots that are alive and not claimed by evasion.
    pub fn bots_available_for_attack(&self, actions: &Vec<Action>) -> (n: usize)
        ensures
            n == available_for_attack(self.bots@, actions@),
    {
        let mut n: usize = 0;
        let mut i: usize = 0;
        while i < self.bots.len()
            invariant
                0 <= i <= self.bots@.len(),
                n <= i,
                n == available_for_attack(self.bots@.take(i as int), actions@),
            decreases self.bots@.len() - i,
        {
            proof {
                assert(self.bots@.take(i as int + 1).drop_last() =~= self.bots@.take(i as int));
                assert(self.bots@.take(i as int + 1).last() == self.bots@[i as int]);
                lemma_find_action_idx(actions@, self.bots@[i as int].id);
            }
            let b = self.bots[i];
            if b.alive {
                match actions.get_action(b.id) {
                    Some(a) => {
                        let moving = match a.action_type {
                            ActionKind::Move => true,
                            _ => false,
                        };
                        if !moving {
                            n = n + 1;
                        }
                    },
                    None => {},
                }
            }
            i = i + 1;
        }
        proof {
            assert(self.bots@.take(self.bots@.len() as int) =~= self.bots@);
        }
        n
    }
}

/// Every action the by-bot filter keeps comes from the filtered sequence.
pub proof fn lemma_filter_by_bot_subset(s: Seq<Action>, id: i16)
    ensures
        forall|i: int|
            0 <= i < filter_actions_by_bot(s, id).len() ==> exists|j: int|
                0 <= j < s.len() && #[trigger] filter_actions_by_bot(s, id)[i] == s[j],
    decreases s.len(),
{
    if s.len() > 0 {
        lemma_filter_by_bot_subset(s.drop_last(), id);
        let f = filter_actions_by_bot(s, id);
        let fr = filter_actions_by_bot(s.drop_last(), id);
        assert forall|i: int| 0 <= i < f.len() implies exists|j: int|
            0 <= j < s.len() && #[trigger] f[i] == s[j] by {
            if i < fr.len() {
                assert(f[i] == fr[i]);
                let j = choose|j: int|
                    0 <= j < s.drop_last().len() && #[trigger] fr[i] == s.drop_last()[j];
                assert(f[i] == s[j]);
            } else {
                assert(f[i] == s[s.len() - 1]);
            }
        }
    }
}

} // verus!
