//! The scanning fallback: idle bots either re-cover an unresolved sighting
//! with a scan spread, or consume the radar sweep through a persistent
//! round-robin cursor.

use vstd::prelude::*;
use crate::attack::{actions_cover, decisions_pre, only_rng_differs, same_ids, writes_only_live};
use crate::bot::Bot;
use crate::defs::{Action, ActionKind};
use crate::engine::{Ai, ai_wf};
use crate::lists::{
    ActionMode, ActionsList, Decision, HistoryList, find_action_idx, lemma_find_action_idx,
    lemma_find_action_idx_ids, lemma_unused_desc_bound, unused_desc,
};
use crate::patterns::spec_scan_spread;
use crate::position::{Pos, dist, pos_in_range, pos_near_board, spec_clamp, spec_origo};
use crate::util::get_random_pos;

verus! {

/// The ids of the living bots whose entries still hold a no-op order, in
/// roster order.
pub open spec fn idle_ids(bots: Seq<Bot>, acts: Seq<Action>) -> Seq<i16>
    decreases bots.len(),
{
    if bots.len() == 0 {
        Seq::empty()
    } else {
        let rest = idle_ids(bots.drop_last(), acts);
        let b = bots.last();
        let f = find_action_idx(acts, b.id);
        if b.alive && f >= 0 && acts[f].action_type == ActionKind::Noaction {
            rest.push(b.id)
        } else {
            rest
        }
    }
}

/// The sweep index actually read at this cursor value: a cursor past the
/// end wraps to the first center.
pub open spec fn cursor_read(len: int, cur: int) -> int {
    if cur > len - 1 {
        0
    } else {
        cur
    }
}

/// The cursor after `m` sweep targets have been taken.
pub open spec fn cursor_after(len: int, cur: int, m: int) -> int
    decreases m,
{
    if m <= 0 {
        cur
    } else {
        cursor_read(len, cursor_after(len, cur, m - 1)) + 1
    }
}

/// The `m`-th sweep target taken from this cursor.
pub open spec fn cursor_target(positions: Seq<Pos>, cur: int, m: int) -> Pos {
    positions[cursor_read(positions.len() as int, cursor_after(positions.len() as int, cur, m))]
}

/// Some living roster bot carries this id.
pub open spec fn some_live_has_id(bots: Seq<Bot>, id: i16) -> bool {
    exists|i: int| 0 <= i < bots.len() && (#[trigger] bots[i]).alive && bots[i].id == id
}

/// Whether an id occurs in a sequence of ids.
pub open spec fn id_among(s: Seq<i16>, id: i16) -> bool {
    exists|m: int| 0 <= m < s.len() && #[trigger] s[m] == id
}

/// When every roster slot still holds a no-op order, every living bot is
/// idle.
pub proof fn lemma_idle_covers_live(bots: Seq<Bot>, acts: Seq<Action>)
    requires
        forall|i: int| 0 <= i < bots.len() ==> #[trigger] find_action_idx(acts, bots[i].id) == i,
        forall|i: int|
            0 <= i < bots.len() ==> (#[trigger] acts[i]).action_type == ActionKind::Noaction,
    ensures
        forall|i: int|
            0 <= i < bots.len() && (#[trigger] bots[i]).alive ==> id_among(
                idle_ids(bots, acts),
                bots[i].id,
            ),
    decreases bots.len(),
{
    if bots.len() > 0 {
        let dl = bots.drop_last();
        assert forall|i: int| 0 <= i < dl.len() implies #[trigger] find_action_idx(acts, dl[i].id)
            == i by {
            assert(dl[i] == bots[i]);
        }
        lemma_idle_covers_live(dl, acts);
        let f = idle_ids(bots, acts);
        let fr = idle_ids(dl, acts);
        assert forall|i: int| 0 <= i < bots.len() && (#[trigger] bots[i]).alive implies id_among(
            f,
            bots[i].id,
        ) by {
            if i == bots.len() - 1 {
                assert(find_action_idx(acts, bots[i].id) == i);
                assert(acts[i].action_type == ActionKind::Noaction);
                assert(f[f.len() - 1] == bots[i].id);
            } else {
                assert(dl[i] == bots[i]);
                assert(id_among(fr, bots[i].id));
                let m = choose|m: int| 0 <= m < fr.len() && #[trigger] fr[m] == bots[i].id;
                assert(f[m] == bots[i].id);
            }
        }
    }
}

/// Every idle id names a living roster bot with a no-op entry, ids are
/// pairwise distinct, and there are no more of them than bots.
proof fn lemma_idle_ids_props(bots: Seq<Bot>, acts: Seq<Action>)
    ensures
        idle_ids(bots, acts).len() <= bots.len(),
        forall|m: int|
            0 <= m < idle_ids(bots, acts).len() ==> some_live_has_id(
                bots,
                #[trigger] idle_ids(bots, acts)[m],
            ),
        forall|m: int|
            0 <= m < idle_ids(bots, acts).len() ==> find_action_idx(
                acts,
                #[trigger] idle_ids(bots, acts)[m],
            ) >= 0 && acts[find_action_idx(acts, idle_ids(bots, acts)[m])].action_type
                == ActionKind::Noaction,
        (forall|i: int, j: int| 0 <= i < j < bots.len() ==> bots[i].id != bots[j].id) ==> forall|
            m1: int,
            m2: int,
        |
            0 <= m1 < m2 < idle_ids(bots, acts).len() ==> idle_ids(bots, acts)[m1] != idle_ids(
                bots,
                acts,
            )[m2],
    decreases bots.len(),
{
    if bots.len() > 0 {
        lemma_idle_ids_props(bots.drop_last(), acts);
        let f = idle_ids(bots, acts);
        let fr = idle_ids(bots.drop_last(), acts);
        assert forall|m: int| 0 <= m < f.len() implies some_live_has_id(
            bots,
            #[trigger] f[m],
        ) by {
            if m < fr.len() {
                assert(f[m] == fr[m]);
                assert(some_live_has_id(bots.drop_last(), fr[m]));
                let i = choose|i: int|
                    0 <= i < bots.drop_last().len() && (#[trigger] bots.drop_last()[i]).alive
                        && bots.drop_last()[i].id == fr[m];
                assert(bots[i].alive && bots[i].id == f[m]);
            } else {
                assert(f[m] == bots[bots.len() - 1].id);
                assert(bots[bots.len() - 1].alive);
            }
        }
        assert forall|m: int| 0 <= m < f.len() implies find_action_idx(acts, #[trigger] f[m]) >= 0
            && acts[find_action_idx(acts, f[m])].action_type == ActionKind::Noaction by {
            if m < fr.len() {
                assert(f[m] == fr[m]);
            }
        }
        if forall|i: int, j: int| 0 <= i < j < bots.len() ==> bots[i].id != bots[j].id {
            assert(forall|i: int, j: int|
                0 <= i < j < bots.drop_last().len() ==> bots.drop_last()[i].id != bots.drop_last()[
                    j
                ].id);
            assert forall|m1: int, m2: int| 0 <= m1 < m2 < f.len() implies f[m1] != f[m2] by {
                if m2 < fr.len() {
                    assert(f[m1] == fr[m1] && f[m2] == fr[m2]);
                } else {
                    assert(f[m2] == bots[bots.len() - 1].id);
                    assert(f[m1] == fr[m1]);
                    assert(some_live_has_id(bots.drop_last(), fr[m1]));
                    let i = choose|i: int|
                        0 <= i < bots.drop_last().len() && (#[trigger] bots.drop_last()[i]).alive
                            && bots.drop_last()[i].id == fr[m1];
                    assert(bots[i].id != bots[bots.len() - 1].id);
                }
            }
        }
    }
}

impl Ai {
    /// The next center of the radar sweep; a cursor past the end wraps
    /// back to the first center, so the sweep restarts indefinitely.
    pub(crate) fn next_radar_target(&mut self) -> (t: Pos)
        requires
            ai_wf(*old(self)),
        ensures
            ai_wf(*final(self)),
            final(self).bots == old(self).bots,
            final(self).round_id == old(self).round_id,
            final(self).radar_positions == old(self).radar_positions,
            final(self).history == old(self).history,
            final(self).asteroids == old(self).asteroids,
            final(self).config == old(self).config,
            final(self).rng == old(self).rng,
            old(self).radar_index > old(self).radar_positions@.len() - 1 ==> t == old(
                self,
            ).radar_positions@[0] && final(self).radar_index == 1,
            old(self).radar_index <= old(self).radar_positions@.len() - 1 ==> t == old(
                self,
            ).radar_positions@[old(self).radar_index as int] && final(self).radar_index == old(
                self,
            ).radar_index + 1,
            pos_near_board(t),
    {
        if self.radar_index > self.radar_positions.len() - 1 {
            self.radar_index = 0;
        }
        let t = self.radar_positions[self.radar_index];
        self.radar_index = self.radar_index + 1;
        t
    }

    /// Sends every living bot's radar to a random center of the sweep.
    #[verifier::rlimit(50)]
    pub fn random_radars_action(&mut self, actions: &mut Vec<Action>)
        requires
            ai_wf(*old(self)),
            actions_cover(old(actions)@, old(self).bots@),
        ensures
            only_rng_differs(*old(self), *final(self)),
            ai_wf(*final(self)),
            same_ids(old(actions)@, final(actions)@),
            actions_cover(final(actions)@, final(self).bots@),
            forall|i: int|
                0 <= i < old(self).bots@.len() && (#[trigger] old(self).bots@[i]).alive ==> {
                    let j = find_action_idx(old(actions)@, old(self).bots@[i].id);
                    final(actions)@[j].action_type == ActionKind::Radar && old(
                        self,
                    ).radar_positions@.contains(final(actions)@[j].pos)
                },
            forall|j: int|
                0 <= j < final(actions)@.len() && !(exists|i: int|
                    0 <= i < old(self).bots@.len() && (#[trigger] old(self).bots@[i]).alive
                        && find_action_idx(old(actions)@, old(self).bots@[i].id) == j)
                    ==> #[trigger] final(actions)@[j] == old(actions)@[j],
            writes_only_live(old(actions)@, final(actions)@, old(self).bots@),
    {
        let ghost acts0 = old(actions)@;
        let mut i: usize = 0;
        while i < self.bots.len()
            invariant
                0 <= i <= self.bots@.len(),
                only_rng_differs(*old(self), *self),
                ai_wf(*self),
                same_ids(acts0, actions@),
                actions_cover(actions@, self.bots@),
                forall|i2: int|
                    0 <= i2 < i && (#[trigger] old(self).bots@[i2]).alive ==> {
                        let j = find_action_idx(acts0, old(self).bots@[i2].id);
                        actions@[j].action_type == ActionKind::Radar && old(
                            self,
                        ).radar_positions@.contains(actions@[j].pos)
                    },
                forall|j: int|
                    0 <= j < actions@.len() && !(exists|i2: int|
                        0 <= i2 < i && (#[trigger] old(self).bots@[i2]).alive && find_action_idx(
                            acts0,
                            old(self).bots@[i2].id,
                        ) == j) ==> #[trigger] actions@[j] == acts0[j],
            decreases self.bots@.len() - i,
        {
            let b = self.bots[i];
            proof {
                assert(self.bots@[i as int] == b);
            }
            if b.alive {
                let target = get_random_pos(&mut self.rng, &self.radar_positions);
                proof {
                    assert(find_action_idx(acts0, b.id) >= 0);
                    lemma_find_action_idx_ids(acts0, actions@, b.id);
                    lemma_find_action_idx(actions@, b.id);
                    lemma_find_action_idx(acts0, b.id);
                }
                let ghost before = actions@;
                actions.set_action_for(b.id, ActionKind::Radar, target);
                proof {
                    let f = find_action_idx(before, b.id);
                    let f0 = find_action_idx(acts0, b.id);
                    assert(f == f0);
                    assert(before[f].bot_id == b.id);
                    assert forall|j: int|
                        0 <= j < actions@.len() implies (#[trigger] actions@[j]).bot_id
                        == acts0[j].bot_id by {
                        if j != f {
                            assert(actions@[j] == before[j]);
                        }
                    }
                    assert forall|i3: int|
                        0 <= i3 < self.bots@.len() implies find_action_idx(
                        actions@,
                        (#[trigger] self.bots@[i3]).id,
                    ) >= 0 by {
                        lemma_find_action_idx_ids(acts0, actions@, self.bots@[i3].id);
                        lemma_find_action_idx_ids(acts0, before, self.bots@[i3].id);
                    }
                    assert forall|i2: int|
                        0 <= i2 < i + 1 && (#[trigger] old(self).bots@[i2]).alive implies {
                        let j = find_action_idx(acts0, old(self).bots@[i2].id);
                        actions@[j].action_type == ActionKind::Radar && old(
                            self,
                        ).radar_positions@.contains(actions@[j].pos)
                    } by {
                        let j = find_action_idx(acts0, old(self).bots@[i2].id);
                        if i2 == i as int {
                            assert(j == f0);
                            assert(actions@[j].pos == target);
                        } else {
                            lemma_find_action_idx(acts0, old(self).bots@[i2].id);
                            assert(acts0[j].bot_id == old(self).bots@[i2].id);
                            assert(acts0[f0].bot_id == b.id);
                            assert(old(self).bots@[i2].id != b.id);
                            assert(j != f0);
                            assert(actions@[j] == before[j]);
                        }
                    }
                    assert forall|j: int|
                        0 <= j < actions@.len() && !(exists|i2: int|
                            0 <= i2 < i + 1 && (#[trigger] old(self).bots@[i2]).alive
                                && find_action_idx(acts0, old(self).bots@[i2].id)
                                == j) implies #[trigger] actions@[j] == acts0[j] by {
                        assert(old(self).bots@[i as int].alive && find_action_idx(
                            acts0,
                            old(self).bots@[i as int].id,
                        ) == f0);
                        if j != f0 {
                            assert(actions@[j] == before[j]);
                            if exists|i2: int|
                                0 <= i2 < i && (#[trigger] old(self).bots@[i2]).alive
                                    && find_action_idx(acts0, old(self).bots@[i2].id) == j {
                                let i2 = choose|i2: int|
                                    0 <= i2 < i && (#[trigger] old(self).bots@[i2]).alive
                                        && find_action_idx(acts0, old(self).bots@[i2].id) == j;
                                assert(false);
                            }
                        } else {
                            assert(false);
                        }
                    }
                }
            }
            i = i + 1;
        }
        proof {
            assert forall|j: int|
                0 <= j < actions@.len() && #[trigger] actions@[j] != acts0[j] implies exists|
                i2: int,
            |
                0 <= i2 < old(self).bots@.len() && (#[trigger] old(self).bots@[i2]).alive && old(
                self,
            ).bots@[i2].id == actions@[j].bot_id by {
                assert(exists|i2: int|
                    0 <= i2 < old(self).bots@.len() && (#[trigger] old(self).bots@[i2]).alive
                        && find_action_idx(acts0, old(self).bots@[i2].id) == j);
                let i2 = choose|i2: int|
                    0 <= i2 < old(self).bots@.len() && (#[trigger] old(self).bots@[i2]).alive
                        && find_action_idx(acts0, old(self).bots@[i2].id) == j;
                lemma_find_action_idx(acts0, old(self).bots@[i2].id);
                assert(acts0[j].bot_id == old(self).bots@[i2].id);
                assert(actions@[j].bot_id == acts0[j].bot_id);
            }
        }
    }

    /// Sets the round's mode to Scan and spends the idle bots: on the
    /// newest unresolved sighting with a scan spread if one is on record,
    /// else on the radar sweep, advancing its cursor and wrapping it past
    /// the end.
    #[verifier::rlimit(80)]
    pub fn scan_with_idle_bots(&mut self, actions: &mut Vec<Action>, decision: &mut Decision)
        requires
            decisions_pre(*old(self)),
            actions_cover(old(actions)@, old(self).bots@),
        ensures
            ai_wf(*final(self)),
            decisions_pre(*final(self)),
            final(self).bots == old(self).bots,
            final(self).round_id == old(self).round_id,
            final(self).radar_positions == old(self).radar_positions,
            final(self).history == old(self).history,
            final(self).asteroids == old(self).asteroids,
            final(self).config == old(self).config,
            final(self).rng == old(self).rng,
            final(decision).mode == ActionMode::Scan,
            final(decision).target == old(decision).target,
            final(decision).unused_echoes == old(decision).unused_echoes,
            same_ids(old(actions)@, final(actions)@),
            actions_cover(final(actions)@, final(self).bots@),
            forall|j: int|
                0 <= j < final(actions)@.len() && #[trigger] final(actions)@[j] != old(actions)@[j]
                    ==> final(actions)@[j].action_type == ActionKind::Radar && pos_near_board(
                    final(actions)@[j].pos,
                ),
            ({
                let idle = idle_ids(old(self).bots@, old(actions)@);
                let u = unused_desc(
                    old(self).history@,
                    old(self).history@.len() - 50,
                    old(self).history@.len() as int,
                );
                let ka = if u.len() > 0 {
                    if 1 <= idle.len() <= 4 {
                        idle.len() as int
                    } else {
                        0
                    }
                } else {
                    idle.len() as int
                };
                &&& forall|m: int|
                    #![trigger idle[m]]
                    0 <= m < ka ==> {
                        let j = find_action_idx(old(actions)@, idle[m]);
                        final(actions)@[j].action_type == ActionKind::Radar && final(actions)@[j].pos
                            == (if u.len() > 0 {
                            spec_clamp(
                                spec_scan_spread(u[0].0, idle.len() as int)[m],
                                old(self).config.field_radius as int,
                            )
                        } else {
                            cursor_target(
                                old(self).radar_positions@,
                                old(self).radar_index as int,
                                m,
                            )
                        })
                    }
                &&& forall|j: int|
                    0 <= j < final(actions)@.len() && !(exists|m: int|
                        0 <= m < ka && find_action_idx(old(actions)@, #[trigger] idle[m]) == j)
                        ==> #[trigger] final(actions)@[j] == old(actions)@[j]
                &&& final(self).radar_index as int == (if u.len() > 0 {
                    old(self).radar_index as int
                } else {
                    cursor_after(
                        old(self).radar_positions@.len() as int,
                        old(self).radar_index as int,
                        idle.len() as int,
                    )
                })
            }),
            writes_only_live(old(actions)@, final(actions)@, old(self).bots@),
    {
        let ghost acts0 = old(actions)@;
        let mut idle_bots: Vec<i16> = Vec::new();
        let mut i: usize = 0;
        while i < self.bots.len()
            invariant
                0 <= i <= self.bots@.len(),
                idle_bots@ == idle_ids(self.bots@.take(i as int), acts0),
                actions@ == acts0,
            decreases self.bots@.len() - i,
        {
            let b = self.bots[i];
            proof {
                assert(self.bots@[i as int] == b);
                assert(self.bots@.take(i as int + 1).drop_last() =~= self.bots@.take(i as int));
                assert(self.bots@.take(i as int + 1).last() == self.bots@[i as int]);
                lemma_find_action_idx(actions@, b.id);
            }
            if b.alive {
                let idle = match actions.get_action(b.id) {
                    Some(a) => {
                        match a.action_type {
                            ActionKind::Noaction => true,
                            _ => false,
                        }
                    },
                    None => false,
                };
                if idle {
                    idle_bots.push(b.id);
                }
            }
            i = i + 1;
        }
        proof {
            assert(self.bots@.take(self.bots@.len() as int) =~= self.bots@);
            assert(idle_bots@ == idle_ids(old(self).bots@, acts0));
            lemma_idle_ids_props(old(self).bots@, acts0);
            assert(idle_bots@.len() <= 1000);
        }
        decision.mode = ActionMode::Scan;
        let unused_echoes = self.history.get_unused_echoes(50);
        proof {
            lemma_unused_desc_bound(
                self.history@,
                self.history@.len() - 50,
                self.history@.len() as int,
                self.config.field_radius as int,
            );
        }
        if unused_echoes.len() > 0 {
            let unused_pos = unused_echoes[0].0;
            proof {
                assert(unused_echoes@[0].0 == unused_pos);
                assert(dist(unused_pos, spec_origo()) <= self.config.field_radius);
            }
            let count = idle_bots.len() as i16;
            let spread = crate::patterns::smart_scan_spread(unused_pos, count);
            let n: usize = if idle_bots.len() < spread.len() {
                idle_bots.len()
            } else {
                spread.len()
            };
            let ghost cnt = idle_bots@.len() as int;
            let mut k: usize = 0;
            while k < n
                invariant
                    0 <= k <= n,
                    n <= idle_bots@.len() && n <= spread@.len(),
                    n as int == (if 1 <= cnt <= 4 {
                        cnt
                    } else {
                        0int
                    }),
                    cnt == idle_bots@.len() as int,
                    idle_bots@ == idle_ids(old(self).bots@, acts0),
                    spread@ == spec_scan_spread(unused_pos, cnt),
                    unused_pos == unused_desc(
                        old(self).history@,
                        old(self).history@.len() - 50,
                        old(self).history@.len() as int,
                    )[0].0,
                    dist(unused_pos, spec_origo()) <= old(self).config.field_radius,
                    forall|m: int|
                        0 <= m < spread@.len() ==> pos_in_range(#[trigger] spread@[m]),
                    forall|m: int|
                        0 <= m < idle_bots@.len() ==> find_action_idx(
                            acts0,
                            #[trigger] idle_bots@[m],
                        ) >= 0,
                    forall|m1: int, m2: int|
                        0 <= m1 < m2 < idle_bots@.len() ==> idle_bots@[m1] != idle_bots@[m2],
                    forall|m: int|
                        0 <= m < idle_bots@.len() ==> some_live_has_id(
                            old(self).bots@,
                            #[trigger] idle_bots@[m],
                        ),
                    *self == *old(self),
                    same_ids(acts0, actions@),
                    actions_cover(actions@, self.bots@),
                    forall|j: int|
                        0 <= j < actions@.len() && #[trigger] actions@[j] != acts0[j]
                            ==> actions@[j].action_type == ActionKind::Radar && pos_near_board(
                            actions@[j].pos,
                        ),
                    forall|m: int|
                        #![trigger idle_bots@[m]]
                        0 <= m < k ==> {
                            let j = find_action_idx(acts0, idle_bots@[m]);
                            actions@[j].action_type == ActionKind::Radar && actions@[j].pos
                                == spec_clamp(
                                spec_scan_spread(unused_pos, cnt)[m],
                                old(self).config.field_radius as int,
                            )
                        },
                    forall|j: int|
                        0 <= j < actions@.len() && !(exists|m: int|
                            0 <= m < k && find_action_idx(acts0, #[trigger] idle_bots@[m]) == j)
                            ==> #[trigger] actions@[j] == acts0[j],
                decreases n - k,
            {
                let bot_id = idle_bots[k];
                let sp = spread[k];
                proof {
                    assert(idle_bots@[k as int] == bot_id);
                    assert(spread@[k as int] == sp);
                    assert(find_action_idx(acts0, bot_id) >= 0);
                    lemma_find_action_idx_ids(acts0, actions@, bot_id);
                    lemma_find_action_idx(actions@, bot_id);
                    lemma_find_action_idx(acts0, bot_id);
                }
                let target = sp.clamp(&self.config.field_radius);
                let ghost before = actions@;
                actions.set_action_for(bot_id, ActionKind::Radar, target);
                proof {
                    let f = find_action_idx(before, bot_id);
                    let f0 = find_action_idx(acts0, bot_id);
                    assert(f == f0);
                    assert(before[f].bot_id == bot_id);
                    assert forall|j: int|
                        0 <= j < actions@.len() implies (#[trigger] actions@[j]).bot_id
                        == acts0[j].bot_id by {
                        if j != f {
                            assert(actions@[j] == before[j]);
                        }
                    }
                    assert forall|i2: int|
                        0 <= i2 < self.bots@.len() implies find_action_idx(
                        actions@,
                        (#[trigger] self.bots@[i2]).id,
                    ) >= 0 by {
                        lemma_find_action_idx_ids(acts0, actions@, self.bots@[i2].id);
                        lemma_find_action_idx_ids(acts0, before, self.bots@[i2].id);
                    }
                    assert forall|m: int|
                        #![trigger idle_bots@[m]]
                        0 <= m < k + 1 implies {
                        let j = find_action_idx(acts0, idle_bots@[m]);
                        actions@[j].action_type == ActionKind::Radar && actions@[j].pos
                            == spec_clamp(
                            spec_scan_spread(unused_pos, cnt)[m],
                            old(self).config.field_radius as int,
                        )
                    } by {
                        let j = find_action_idx(acts0, idle_bots@[m]);
                        if m == k as int {
                            assert(j == f0);
                            assert(actions@[j].action_type == ActionKind::Radar);
                            assert(actions@[j].pos == target);
                        } else {
                            lemma_find_action_idx(acts0, idle_bots@[m]);
                            assert(acts0[j].bot_id == idle_bots@[m]);
                            assert(acts0[f0].bot_id == bot_id);
                            assert(idle_bots@[m] != bot_id);
                            assert(j != f0);
                            assert(actions@[j] == before[j]);
                        }
                    }
                    assert forall|j: int|
                        0 <= j < actions@.len() && !(exists|m: int|
                            0 <= m < k + 1 && find_action_idx(
                                acts0,
                                #[trigger] idle_bots@[m],
                            ) == j) implies #[trigger] actions@[j] == acts0[j] by {
                        assert(find_action_idx(acts0, idle_bots@[k as int]) == f0);
                        if j != f0 {
                            assert(actions@[j] == before[j]);
                            if exists|m: int|
                                0 <= m < k && find_action_idx(acts0, #[trigger] idle_bots@[m])
                                    == j {
                                let m = choose|m: int|
                                    0 <= m < k && find_action_idx(
                                        acts0,
                                        #[trigger] idle_bots@[m],
                                    ) == j;
                                assert(false);
                            }
                        } else {
                            assert(false);
                        }
                    }
                }
                k = k + 1;
            }
        } else {
            let ghost idx0 = self.radar_index as int;
            let ghost lenp = self.radar_positions@.len() as int;
            let mut k: usize = 0;
            while k < idle_bots.len()
                invariant
                    0 <= k <= idle_bots@.len(),
                    idle_bots@ == idle_ids(old(self).bots@, acts0),
                    unused_desc(
                        old(self).history@,
                        old(self).history@.len() - 50,
                        old(self).history@.len() as int,
                    ).len() == 0,
                    forall|m: int|
                        0 <= m < idle_bots@.len() ==> find_action_idx(
                            acts0,
                            #[trigger] idle_bots@[m],
                        ) >= 0,
                    forall|m1: int, m2: int|
                        0 <= m1 < m2 < idle_bots@.len() ==> idle_bots@[m1] != idle_bots@[m2],
                    forall|m: int|
                        0 <= m < idle_bots@.len() ==> some_live_has_id(
                            old(self).bots@,
                            #[trigger] idle_bots@[m],
                        ),
                    self.bots == old(self).bots,
                    self.round_id == old(self).round_id,
                    self.radar_positions == old(self).radar_positions,
                    self.history == old(self).history,
                    self.asteroids == old(self).asteroids,
                    self.config == old(self).config,
                    self.rng == old(self).rng,
                    ai_wf(*self),
                    lenp == old(self).radar_positions@.len() as int,
                    idx0 == old(self).radar_index as int,
                    self.radar_index as int == cursor_after(lenp, idx0, k as int),
                    same_ids(acts0, actions@),
                    actions_cover(actions@, self.bots@),
                    forall|j: int|
                        0 <= j < actions@.len() && #[trigger] actions@[j] != acts0[j]
                            ==> actions@[j].action_type == ActionKind::Radar && pos_near_board(
                            actions@[j].pos,
                        ),
                    forall|m: int|
                        #![trigger idle_bots@[m]]
                        0 <= m < k ==> {
                            let j = find_action_idx(acts0, idle_bots@[m]);
                            actions@[j].action_type == ActionKind::Radar && actions@[j].pos
                                == cursor_target(old(self).radar_positions@, idx0, m)
                        },
                    forall|j: int|
                        0 <= j < actions@.len() && !(exists|m: int|
                            0 <= m < k && find_action_idx(acts0, #[trigger] idle_bots@[m]) == j)
                            ==> #[trigger] actions@[j] == acts0[j],
                decreases idle_bots@.len() - k,
            {
                let bot_id = idle_bots[k];
                proof {
                    assert(idle_bots@[k as int] == bot_id);
                    assert(find_action_idx(acts0, bot_id) >= 0);
                    lemma_find_action_idx_ids(acts0, actions@, bot_id);
                    lemma_find_action_idx(actions@, bot_id);
                    lemma_find_action_idx(acts0, bot_id);
                }
                let target = self.next_radar_target();
                proof {
                    assert(cursor_after(lenp, idx0, k as int + 1) == cursor_read(
                        lenp,
                        cursor_after(lenp, idx0, k as int),
                    ) + 1);
                    assert(target == cursor_target(old(self).radar_positions@, idx0, k as int));
                }
                let ghost before = actions@;
                actions.set_action_for(bot_id, ActionKind::Radar, target);
                proof {
                    let f = find_action_idx(before, bot_id);
                    let f0 = find_action_idx(acts0, bot_id);
                    assert(f == f0);
                    assert(before[f].bot_id == bot_id);
                    assert forall|j: int|
                        0 <= j < actions@.len() implies (#[trigger] actions@[j]).bot_id
                        == acts0[j].bot_id by {
                        if j != f {
                            assert(actions@[j] == before[j]);
                        }
                    }
                    assert forall|i2: int|
                        0 <= i2 < self.bots@.len() implies find_action_idx(
                        actions@,
                        (#[trigger] self.bots@[i2]).id,
                    ) >= 0 by {
                        lemma_find_action_idx_ids(acts0, actions@, self.bots@[i2].id);
                        lemma_find_action_idx_ids(acts0, before, self.bots@[i2].id);
                    }
                    assert forall|m: int|
                        #![trigger idle_bots@[m]]
                        0 <= m < k + 1 implies {
                        let j = find_action_idx(acts0, idle_bots@[m]);
                        actions@[j].action_type == ActionKind::Radar && actions@[j].pos
                            == cursor_target(old(self).radar_positions@, idx0, m)
                    } by {
                        let j = find_action_idx(acts0, idle_bots@[m]);
                        if m == k as int {
                            assert(j == f0);
                            assert(actions@[j].action_type == ActionKind::Radar);
                            assert(actions@[j].pos == target);
                        } else {
                            lemma_find_action_idx(acts0, idle_bots@[m]);
                            assert(acts0[j].bot_id == idle_bots@[m]);
                            assert(acts0[f0].bot_id == bot_id);
                            assert(idle_bots@[m] != bot_id);
                            assert(j != f0);
                            assert(actions@[j] == before[j]);
                        }
                    }
                    assert forall|j: int|
                        0 <= j < actions@.len() && !(exists|m: int|
                            0 <= m < k + 1 && find_action_idx(
                                acts0,
                                #[trigger] idle_bots@[m],
                            ) == j) implies #[trigger] actions@[j] == acts0[j] by {
                        assert(find_action_idx(acts0, idle_bots@[k as int]) == f0);
                        if j != f0 {
                            assert(actions@[j] == before[j]);
                            if exists|m: int|
                                0 <= m < k && find_action_idx(acts0, #[trigger] idle_bots@[m])
                                    == j {
                                let m = choose|m: int|
                                    0 <= m < k && find_action_idx(
                                        acts0,
                                        #[trigger] idle_bots@[m],
                                    ) == j;
                                assert(false);
                            }
                        } else {
                            assert(false);
                        }
                    }
                }
                k = k + 1;
            }
        }
        proof {
            assert forall|j: int|
                0 <= j < actions@.len() && #[trigger] actions@[j] != acts0[j] implies exists|
                i2: int,
            |
                0 <= i2 < old(self).bots@.len() && (#[trigger] old(self).bots@[i2]).alive && old(
                self,
            ).bots@[i2].id == actions@[j].bot_id by {
                let idle = idle_ids(old(self).bots@, acts0);
                assert(exists|m: int|
                    0 <= m < idle.len() && find_action_idx(acts0, #[trigger] idle[m]) == j);
                let m = choose|m: int|
                    0 <= m < idle.len() && find_action_idx(acts0, #[trigger] idle[m]) == j;
                lemma_find_action_idx(acts0, idle[m]);
                assert(acts0[j].bot_id == idle[m]);
                assert(some_live_has_id(old(self).bots@, idle[m]));
                let i2 = choose|i2: int|
                    0 <= i2 < old(self).bots@.len() && (#[trigger] old(self).bots@[i2]).alive
                        && old(self).bots@[i2].id == idle[m];
                assert(actions@[j].bot_id == acts0[j].bot_id);
            }
        }
    }
}

} // verus!
