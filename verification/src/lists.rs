//! The round-indexed history store, the per-round action list and the
//! asteroid registry, as typed query surfaces over plain vectors.
//!
//! History is an arena indexed by round id: entry `i` is round `i`, so
//! "round exists" is a bounds check.  A round's event list may be rewritten
//! while the round is current; actions and the decision are amended into the
//! same entry once the round resolves.

use vstd::prelude::*;
use crate::bot::Bot;
use crate::defs::{Action, ActionKind, Event, EventKind, kind_of};
use crate::position::{Pos, spec_origo};

verus! {

/// A position the registry holds as a confirmed asteroid.
pub open spec fn reg_confirmed(s: Seq<(Pos, bool)>, p: Pos) -> bool {
    exists|i: int| 0 <= i < s.len() && (#[trigger] s[i]).0 == p && s[i].1
}

/// A position the registry has at least one observation for.
pub open spec fn reg_known(s: Seq<(Pos, bool)>, p: Pos) -> bool {
    exists|i: int| 0 <= i < s.len() && (#[trigger] s[i]).0 == p
}

/// The registry entries whose position differs from `p`, in order.
pub open spec fn reg_filter(s: Seq<(Pos, bool)>, p: Pos) -> Seq<(Pos, bool)>
    decreases s.len(),
{
    if s.len() == 0 {
        Seq::empty()
    } else {
        let rest = reg_filter(s.drop_last(), p);
        if s.last().0 != p {
            rest.push(s.last())
        } else {
            rest
        }
    }
}

/// What recording a confirmed asteroid does: nothing if already confirmed,
/// else every older observation of the position is replaced by one
/// confirmed entry.
pub open spec fn spec_register(s: Seq<(Pos, bool)>, p: Pos) -> Seq<(Pos, bool)> {
    if reg_confirmed(s, p) {
        s
    } else {
        reg_filter(s, p).push((p, true))
    }
}

/// What recording a suspicion does: nothing if the position is already on
/// record, else one unconfirmed entry is appended.
pub open spec fn spec_register_maybe(s: Seq<(Pos, bool)>, p: Pos) -> Seq<(Pos, bool)> {
    if reg_known(s, p) {
        s
    } else {
        s.push((p, false))
    }
}

/// Filtering a position out removes every observation of it and none of
/// any other.
pub proof fn lemma_reg_filter(s: Seq<(Pos, bool)>, p: Pos)
    ensures
        !reg_known(reg_filter(s, p), p),
        forall|q: Pos| q != p ==> (reg_known(reg_filter(s, p), q) <==> reg_known(s, q)),
        forall|q: Pos| q != p ==> (reg_confirmed(reg_filter(s, p), q) <==> reg_confirmed(s, q)),
    decreases s.len(),
{
    if s.len() > 0 {
        lemma_reg_filter(s.drop_last(), p);
        let f = reg_filter(s, p);
        let fr = reg_filter(s.drop_last(), p);
        if !reg_known(f, p) {
        } else {
            let m = choose|m: int| 0 <= m < f.len() && (#[trigger] f[m]).0 == p;
            if s.last().0 != p {
                if m < fr.len() {
                    assert(fr[m].0 == p);
                } else {
                    assert(f[m] == s.last());
                }
            } else {
                assert(fr[m].0 == p);
            }
        }
        assert forall|q: Pos| q != p implies (reg_known(f, q) <==> reg_known(s, q)) by {
            if reg_known(f, q) {
                let m = choose|m: int| 0 <= m < f.len() && (#[trigger] f[m]).0 == q;
                if s.last().0 != p && m == f.len() - 1 {
                    assert(s[s.len() - 1].0 == q);
                } else {
                    assert(fr[m].0 == q);
                    assert(reg_known(s.drop_last(), q));
                    let k = choose|k: int|
                        0 <= k < s.drop_last().len() && (#[trigger] s.drop_last()[k]).0 == q;
                    assert(s[k].0 == q);
                }
            }
            if reg_known(s, q) {
                let k = choose|k: int| 0 <= k < s.len() && (#[trigger] s[k]).0 == q;
                if k == s.len() - 1 {
                    assert(s.last().0 == q && q != p);
                    assert(f[f.len() - 1].0 == q);
                } else {
                    assert(0 <= k < s.drop_last().len());
                    assert(s.drop_last()[k].0 == q);
                    assert(reg_known(s.drop_last(), q));
                    assert(reg_known(fr, q));
                    let m = choose|m: int| 0 <= m < fr.len() && (#[trigger] fr[m]).0 == q;
                    assert(f[m].0 == q);
                }
            }
        }
        assert forall|q: Pos| q != p implies (reg_confirmed(f, q) <==> reg_confirmed(s, q)) by {
            if reg_confirmed(f, q) {
                let m = choose|m: int| 0 <= m < f.len() && (#[trigger] f[m]).0 == q && f[m].1;
                if s.last().0 != p && m == f.len() - 1 {
                    assert(s[s.len() - 1].0 == q && s[s.len() - 1].1);
                } else {
                    assert(fr[m].0 == q && fr[m].1);
                    assert(reg_confirmed(s.drop_last(), q));
                    let k = choose|k: int|
                        0 <= k < s.drop_last().len() && (#[trigger] s.drop_last()[k]).0 == q
                            && s.drop_last()[k].1;
                    assert(s[k].0 == q && s[k].1);
                }
            }
            if reg_confirmed(s, q) {
                let k = choose|k: int| 0 <= k < s.len() && (#[trigger] s[k]).0 == q && s[k].1;
                if k == s.len() - 1 {
                    assert(f[f.len() - 1].0 == q && f[f.len() - 1].1);
                } else {
                    assert(0 <= k < s.drop_last().len());
                    assert(s.drop_last()[k].0 == q && s.drop_last()[k].1);
                    assert(reg_confirmed(s.drop_last(), q));
                    assert(reg_confirmed(fr, q));
                    let m = choose|m: int|
                        0 <= m < fr.len() && (#[trigger] fr[m]).0 == q && fr[m].1;
                    assert(f[m].0 == q && f[m].1);
                }
            }
        }
    }
}

/// Recording a confirmation confirms the position and touches no other.
pub proof fn lemma_register_props(s: Seq<(Pos, bool)>, p: Pos)
    ensures
        reg_confirmed(spec_register(s, p), p),
        reg_known(spec_register(s, p), p),
        forall|q: Pos|
            q != p ==> (reg_confirmed(spec_register(s, p), q) <==> reg_confirmed(s, q)),
        forall|q: Pos| q != p ==> (reg_known(spec_register(s, p), q) <==> reg_known(s, q)),
{
    lemma_reg_filter(s, p);
    let r = spec_register(s, p);
    if !reg_confirmed(s, p) {
        let f = reg_filter(s, p);
        assert(r[r.len() - 1] == (p, true));
        assert(reg_confirmed(r, p));
        assert forall|q: Pos| q != p implies (reg_known(r, q) <==> reg_known(f, q)) by {
            if reg_known(r, q) {
                let m = choose|m: int| 0 <= m < r.len() && (#[trigger] r[m]).0 == q;
                assert(m < f.len());
                assert(f[m].0 == q);
            }
            if reg_known(f, q) {
                let m = choose|m: int| 0 <= m < f.len() && (#[trigger] f[m]).0 == q;
                assert(r[m].0 == q);
            }
        }
        assert forall|q: Pos| q != p implies (reg_confirmed(r, q) <==> reg_confirmed(f, q)) by {
            if reg_confirmed(r, q) {
                let m = choose|m: int| 0 <= m < r.len() && (#[trigger] r[m]).0 == q && r[m].1;
                assert(m < f.len());
                assert(f[m].0 == q && f[m].1);
            }
            if reg_confirmed(f, q) {
                let m = choose|m: int| 0 <= m < f.len() && (#[trigger] f[m]).0 == q && f[m].1;
                assert(r[m].0 == q && r[m].1);
            }
        }
    }
}

/// Recording a suspicion puts the position on record, confirms nothing,
/// and touches no other position.
pub proof fn lemma_register_maybe_props(s: Seq<(Pos, bool)>, p: Pos)
    ensures
        reg_known(spec_register_maybe(s, p), p),
        reg_confirmed(spec_register_maybe(s, p), p) == reg_confirmed(s, p),
        forall|q: Pos|
            q != p ==> (reg_confirmed(spec_register_maybe(s, p), q) <==> reg_confirmed(s, q)),
        forall|q: Pos| q != p ==> (reg_known(spec_register_maybe(s, p), q) <==> reg_known(s, q)),
{
    let r = spec_register_maybe(s, p);
    if !reg_known(s, p) {
        assert(r[r.len() - 1] == (p, false));
        assert(reg_known(r, p));
        assert forall|q: Pos| reg_known(r, q) implies reg_known(s, q) || q == p by {
            let m = choose|m: int| 0 <= m < r.len() && (#[trigger] r[m]).0 == q;
            if m < s.len() {
                assert(s[m].0 == q);
            }
        }
        assert forall|q: Pos| reg_known(s, q) implies reg_known(r, q) by {
            let m = choose|m: int| 0 <= m < s.len() && (#[trigger] s[m]).0 == q;
            assert(r[m].0 == q);
        }
        assert forall|q: Pos| reg_confirmed(r, q) implies reg_confirmed(s, q) by {
            let m = choose|m: int| 0 <= m < r.len() && (#[trigger] r[m]).0 == q && r[m].1;
            assert(m < s.len());
            assert(s[m].0 == q && s[m].1);
        }
        assert forall|q: Pos| reg_confirmed(s, q) implies reg_confirmed(r, q) by {
            let m = choose|m: int| 0 <= m < s.len() && (#[trigger] s[m]).0 == q && s[m].1;
            assert(r[m].0 == q && r[m].1);
        }
    }
}

/// The set of positions suspected or confirmed to be asteroids.  Confirmed
/// is permanent: a second independent suspicion, or direct evidence,
/// promotes a position, and nothing demotes it.
pub trait AsteroidList: View<V = Seq<(Pos, bool)>> {
    /// Records `pos` as a confirmed asteroid.
    fn register(&mut self, pos: Pos)
        ensures
            final(self)@ == spec_register(old(self)@, pos),
    ;

    /// Records one suspicion of `pos`, unless one is already on record.
    fn register_maybe(&mut self, pos: Pos)
        ensures
            final(self)@ == spec_register_maybe(old(self)@, pos),
    ;

    /// Whether `pos` is a confirmed asteroid.
    fn is_asteroid(&self, pos: Pos) -> (r: bool)
        ensures
            r == reg_confirmed(self@, pos),
    ;

    /// Whether `pos` has at least one observation on record.
    fn is_maybe_asteroid(&self, pos: Pos) -> (r: bool)
        ensures
            r == reg_known(self@, pos),
    ;
}

impl AsteroidList for Vec<(Pos, bool)> {
    fn register(&mut self, pos: Pos) {
        if !self.is_asteroid(pos) {
            let ghost orig = self@;
            let mut kept: Vec<(Pos, bool)> = Vec::new();
            let mut i: usize = 0;
            while i < self.len()
                invariant
                    self@ == orig,
                    0 <= i <= orig.len(),
                    kept@ == reg_filter(orig.take(i as int), pos),
                decreases orig.len() - i,
            {
                let entry = self[i];
                proof {
                    assert(orig.take(i as int + 1).drop_last() =~= orig.take(i as int));
                    assert(orig.take(i as int + 1).last() == orig[i as int]);
                }
                if !(entry.0.x == pos.x && entry.0.y == pos.y) {
                    kept.push(entry);
                }
                i = i + 1;
            }
            proof {
                assert(orig.take(orig.len() as int) =~= orig);
            }
            kept.push((pos, true));
            *self = kept;
        }
    }

    fn register_maybe(&mut self, pos: Pos) {
        if !self.is_maybe_asteroid(pos) {
            self.push((pos, false));
        }
    }

    fn is_asteroid(&self, pos: Pos) -> (r: bool) {
        let mut i: usize = 0;
        while i < self.len()
            invariant
                0 <= i <= self@.len(),
                forall|k: int| 0 <= k < i ==> !((#[trigger] self@[k]).0 == pos && self@[k].1),
            decreases self@.len() - i,
        {
            let entry = self[i];
            if entry.0.x == pos.x && entry.0.y == pos.y && entry.1 {
                proof {
                    assert(self@[i as int].0 == pos && self@[i as int].1);
                }
                return true;
            }
            proof {
                assert(self@[i as int] == entry);
            }
            i = i + 1;
        }
        false
    }

    fn is_maybe_asteroid(&self, pos: Pos) -> (r: bool) {
        let mut i: usize = 0;
        while i < self.len()
            invariant
                0 <= i <= self@.len(),
                forall|k: int| 0 <= k < i ==> (#[trigger] self@[k]).0 != pos,
            decreases self@.len() - i,
        {
            let entry = self[i];
            if entry.0.x == pos.x && entry.0.y == pos.y {
                proof {
                    assert(self@[i as int].0 == pos);
                }
                return true;
            }
            proof {
                assert(self@[i as int] == entry);
            }
            i = i + 1;
        }
        false
    }
}

/// Round `i` of the match sits at index `i`, and round ids fit the wire's
/// integer width.
pub open spec fn history_wf(h: Seq<HistoryEntry>) -> bool {
    &&& h.len() <= 32767
    &&& forall|i: int| 0 <= i < h.len() ==> (#[trigger] h[i]).round_id == i
}

/// Events worth remembering: everything but no-ops and untaggable records.
pub open spec fn is_relevant(e: Event) -> bool {
    !(kind_of(e) == EventKind::Noaction || kind_of(e) == EventKind::Invalid)
}

/// The relevant events of `s`, in order.
pub open spec fn filter_relevant_spec(s: Seq<Event>) -> Seq<Event>
    decreases s.len(),
{
    if s.len() == 0 {
        Seq::empty()
    } else {
        let rest = filter_relevant_spec(s.drop_last());
        if is_relevant(s.last()) {
            rest.push(s.last())
        } else {
            rest
        }
    }
}

/// The events of `s` with the given tag, in order.
pub open spec fn events_of_kind(s: Seq<Event>, k: EventKind) -> Seq<Event>
    decreases s.len(),
{
    if s.len() == 0 {
        Seq::empty()
    } else {
        let rest = events_of_kind(s.drop_last(), k);
        if kind_of(s.last()) == k {
            rest.push(s.last())
        } else {
            rest
        }
    }
}

/// The actions of `s` with the given kind, in order; `None` keeps them all.
pub open spec fn actions_of_kind(s: Seq<Action>, k: Option<ActionKind>) -> Seq<Action>
    decreases s.len(),
{
    if s.len() == 0 {
        Seq::empty()
    } else {
        let rest = actions_of_kind(s.drop_last(), k);
        if k is None || s.last().action_type == k->0 {
            rest.push(s.last())
        } else {
            rest
        }
    }
}

/// Pairs each element with a round id.
pub open spec fn tag_events(s: Seq<Event>, r: i16) -> Seq<(Event, i16)> {
    s.map(|i: int, e: Event| (e, r))
}

pub open spec fn tag_actions(s: Seq<Action>, r: i16) -> Seq<(Action, i16)> {
    s.map(|i: int, a: Action| (a, r))
}

/// The tagged events of the given kind from rounds `cutoff` up to `n`
/// (exclusive), oldest round first.
pub open spec fn events_window(h: Seq<HistoryEntry>, k: EventKind, cutoff: int, n: int) -> Seq<
    (Event, i16),
>
    decreases n,
{
    if n <= 0 {
        Seq::empty()
    } else {
        let rest = events_window(h, k, cutoff, n - 1);
        if n - 1 >= cutoff && n - 1 < h.len() {
            rest + tag_events(events_of_kind(h[n - 1].events@, k), h[n - 1].round_id)
        } else {
            rest
        }
    }
}

/// The tagged actions of the given kind from rounds `cutoff` up to `n`
/// (exclusive), oldest round first.
pub open spec fn actions_window(h: Seq<HistoryEntry>, k: ActionKind, cutoff: int, n: int) -> Seq<
    (Action, i16),
>
    decreases n,
{
    if n <= 0 {
        Seq::empty()
    } else {
        let rest = actions_window(h, k, cutoff, n - 1);
        if n - 1 >= cutoff && n - 1 < h.len() {
            rest + tag_actions(actions_of_kind(h[n - 1].actions@, Some(k)), h[n - 1].round_id)
        } else {
            rest
        }
    }
}

/// The position a sighting or movement event speaks of.
pub open spec fn event_pos(e: Event) -> Pos {
    match e {
        Event::See { pos, .. } => pos,
        Event::Echo { pos } => pos,
        Event::Move { pos, .. } => pos,
        _ => spec_origo(),
    }
}

/// The sighting evidence of one round's events: all See events, then all
/// Echo events, in storage order.
pub open spec fn see_echo_seq(s: Seq<Event>) -> Seq<Event> {
    events_of_kind(s, EventKind::See) + events_of_kind(s, EventKind::Echo)
}

pub open spec fn pos_pairs(s: Seq<Event>, r: i16) -> Seq<(Pos, i16)> {
    s.map(|i: int, e: Event| (event_pos(e), r))
}

/// The sighted positions from rounds `cutoff` up to `n`, oldest round
/// first; within a round the See sightings come before the echoes.
pub open spec fn echo_pairs_window(h: Seq<HistoryEntry>, cutoff: int, n: int) -> Seq<(Pos, i16)>
    decreases n,
{
    if n <= 0 {
        Seq::empty()
    } else {
        let rest = echo_pairs_window(h, cutoff, n - 1);
        if n - 1 >= cutoff && n - 1 < h.len() {
            rest + pos_pairs(see_echo_seq(h[n - 1].events@), h[n - 1].round_id)
        } else {
            rest
        }
    }
}

/// Whether a round after `round` finally targeted `p`.
pub open spec fn used_later(h: Seq<HistoryEntry>, p: Pos, round: int) -> bool {
    exists|j: int|
        0 <= j < h.len() && (#[trigger] h[j]).decision.target is Some && h[j].decision.target->0
            == p && h[j].round_id > round
}

/// One round's unused echoes, minus those a later round targeted, tagged
/// with the round.
pub open spec fn unused_block(h: Seq<HistoryEntry>, s: Seq<Pos>, round: i16) -> Seq<(Pos, i16)>
    decreases s.len(),
{
    if s.len() == 0 {
        Seq::empty()
    } else {
        let rest = unused_block(h, s.drop_last(), round);
        if !used_later(h, s.last(), round as int) {
            rest.push((s.last(), round))
        } else {
            rest
        }
    }
}

/// The unresolved sightings from rounds `cutoff` up to `n`, newest round
/// first.
pub open spec fn unused_desc(h: Seq<HistoryEntry>, cutoff: int, n: int) -> Seq<(Pos, i16)>
    decreases n,
{
    if n <= 0 || n <= cutoff {
        Seq::empty()
    } else {
        unused_block(h, h[n - 1].decision.unused_echoes@, h[n - 1].round_id) + unused_desc(
            h,
            cutoff,
            n - 1,
        )
    }
}

/// The newest sighting on record below round `n`: the first echo of its
/// round, or failing that its first See.
pub open spec fn last_enemy_pos(h: Seq<HistoryEntry>, n: int) -> Option<(Event, i16)>
    decreases n,
{
    if n <= 0 || n > h.len() {
        None
    } else {
        let c = events_of_kind(h[n - 1].events@, EventKind::Echo) + events_of_kind(
            h[n - 1].events@,
            EventKind::See,
        );
        if c.len() > 0 {
            Some((c[0], h[n - 1].round_id))
        } else {
            last_enemy_pos(h, n - 1)
        }
    }
}

/// The newest cannon action on record below round `n`.
pub open spec fn last_attack_action(h: Seq<HistoryEntry>, n: int) -> Option<(Action, i16)>
    decreases n,
{
    if n <= 0 || n > h.len() {
        None
    } else {
        let c = actions_of_kind(h[n - 1].actions@, Some(ActionKind::Cannon));
        if c.len() > 0 {
            Some((c[0], h[n - 1].round_id))
        } else {
            last_attack_action(h, n - 1)
        }
    }
}

/// Windows that end at or before their cutoff hold nothing.
proof fn lemma_events_window_empty(h: Seq<HistoryEntry>, k: EventKind, cutoff: int, n: int)
    requires
        n <= cutoff || n <= 0,
    ensures
        events_window(h, k, cutoff, n) == Seq::<(Event, i16)>::empty(),
    decreases n,
{
    if n > 0 {
        lemma_events_window_empty(h, k, cutoff, n - 1);
    }
}

proof fn lemma_actions_window_empty(h: Seq<HistoryEntry>, k: ActionKind, cutoff: int, n: int)
    requires
        n <= cutoff || n <= 0,
    ensures
        actions_window(h, k, cutoff, n) == Seq::<(Action, i16)>::empty(),
    decreases n,
{
    if n > 0 {
        lemma_actions_window_empty(h, k, cutoff, n - 1);
    }
}

proof fn lemma_echo_pairs_window_empty(h: Seq<HistoryEntry>, cutoff: int, n: int)
    requires
        n <= cutoff || n <= 0,
    ensures
        echo_pairs_window(h, cutoff, n) == Seq::<(Pos, i16)>::empty(),
    decreases n,
{
    if n > 0 {
        lemma_echo_pairs_window_empty(h, cutoff, n - 1);
    }
}

/// A negative cutoff asks for no more than a zero one.
proof fn lemma_unused_desc_nonneg(h: Seq<HistoryEntry>, cutoff: int, n: int)
    requires
        cutoff <= 0,
    ensures
        unused_desc(h, cutoff, n) == unused_desc(h, 0, n),
    decreases n,
{
    if n > 0 {
        lemma_unused_desc_nonneg(h, cutoff, n - 1);
    }
}

/// The round's strategic stance.
#[derive(Debug, Clone, Copy, Eq, PartialEq, Structural)]
pub enum ActionMode {
    Attack,
    Scan,
    Nomode,
}

/// What a round decided: its mode, the position it went after, and the
/// sighted positions it left for later recovery.
#[derive(Debug, Clone)]
pub struct Decision {
    pub mode: ActionMode,
    pub target: Option<Pos>,
    pub unused_echoes: Vec<Pos>,
}

/// One round of history: the filtered events that came in, the actions that
/// went out, and the decision behind them.
#[derive(Debug, Clone)]
pub struct HistoryEntry {
    pub round_id: i16,
    pub events: Vec<Event>,
    pub actions: Vec<Action>,
    pub decision: Decision,
}

/// The positions of `s` other than `t`, in order.
pub open spec fn filter_ne(s: Seq<Pos>, t: Pos) -> Seq<Pos>
    decreases s.len(),
{
    if s.len() == 0 {
        Seq::empty()
    } else {
        let rest = filter_ne(s.drop_last(), t);
        if s.last() != t {
            rest.push(s.last())
        } else {
            rest
        }
    }
}

impl Decision {
    /// No mode, no target, nothing left over: the state before any round.
    pub fn with_defaults() -> (d: Decision)
        ensures
            d.mode == ActionMode::Nomode,
            d.target is None,
            d.unused_echoes@ == Seq::<Pos>::empty(),
    {
        Decision { mode: ActionMode::Nomode, target: None, unused_echoes: Vec::new() }
    }

    /// Commits to attacking `target`; every other sighting of `echoes` is
    /// recorded as unused for later recovery.
    pub fn add_attack_decision(&mut self, target: &Pos, echoes: &Vec<Pos>)
        ensures
            final(self).mode == ActionMode::Attack,
            final(self).target == Some(*target),
            final(self).unused_echoes@ == filter_ne(echoes@, *target),
    {
        self.mode = ActionMode::Attack;
        self.target = Some(*target);
        let mut unused: Vec<Pos> = Vec::new();
        let mut i: usize = 0;
        while i < echoes.len()
            invariant
                0 <= i <= echoes@.len(),
                unused@ == filter_ne(echoes@.take(i as int), *target),
            decreases echoes@.len() - i,
        {
            let e = echoes[i];
            proof {
                assert(echoes@.take(i as int + 1).drop_last() =~= echoes@.take(i as int));
                assert(echoes@.take(i as int + 1).last() == echoes@[i as int]);
            }
            if !(e.x == target.x && e.y == target.y) {
                unused.push(e);
            }
            i = i + 1;
        }
        proof {
            assert(echoes@.take(echoes@.len() as int) =~= echoes@);
        }
        self.unused_echoes = unused;
    }
}

/// The index of the first action for `id`, or `-1` when there is none.
pub open spec fn find_action_idx(s: Seq<Action>, id: i16) -> int
    decreases s.len(),
{
    if s.len() == 0 {
        -1
    } else if s[0].bot_id == id {
        0
    } else {
        let t = find_action_idx(s.drop_first(), id);
        if t == -1 {
            -1
        } else {
            t + 1
        }
    }
}

/// What `find_action_idx` finds: the first matching index, or `-1` when no
/// entry matches.
pub proof fn lemma_find_action_idx(s: Seq<Action>, id: i16)
    ensures
        find_action_idx(s, id) >= -1,
        find_action_idx(s, id) == -1 ==> forall|k: int|
            0 <= k < s.len() ==> (#[trigger] s[k]).bot_id != id,
        find_action_idx(s, id) >= 0 ==> 0 <= find_action_idx(s, id) < s.len() && s[find_action_idx(
            s,
            id,
        )].bot_id == id && (forall|k: int|
            0 <= k < find_action_idx(s, id) ==> (#[trigger] s[k]).bot_id != id),
    decreases s.len(),
{
    if s.len() > 0 && s[0].bot_id != id {
        let d = s.drop_first();
        lemma_find_action_idx(d, id);
        let t = find_action_idx(d, id);
        assert forall|k: int| 0 <= k < d.len() implies #[trigger] d[k] == s[k + 1] by {
            assert(d[k] == s.subrange(1, s.len() as int)[k]);
        }
        if t == -1 {
            assert forall|k: int| 0 <= k < s.len() implies (#[trigger] s[k]).bot_id != id by {
                if k > 0 {
                    assert(d[k - 1] == s[k]);
                }
            }
        } else {
            assert(d[t] == s[t + 1]);
            assert forall|k: int| 0 <= k < t + 1 implies (#[trigger] s[k]).bot_id != id by {
                if k > 0 {
                    assert(d[k - 1] == s[k]);
                }
            }
        }
    }
}

/// The actions of one round, one entry per bot, looked up and amended by
/// bot id.
pub trait ActionsList: View<V = Seq<Action>> {
    /// One no-op action per bot, targeting the board center.
    fn populate(bots: &Vec<Bot>) -> (res: Vec<Action>)
        ensures
            res@.len() == bots@.len(),
            forall|i: int|
                0 <= i < bots@.len() ==> (#[trigger] res@[i]) == (Action {
                    bot_id: bots@[i].id,
                    action_type: ActionKind::Noaction,
                    pos: spec_origo(),
                }),
    ;

    /// The first action recorded for the bot, if any.
    fn get_action(&self, id: i16) -> (r: Option<&Action>)
        ensures
            r is Some <==> find_action_idx(self@, id) >= 0,
            r is Some ==> *r->0 == self@[find_action_idx(self@, id)],
    ;

    /// Overwrites the bot's action in place; the bot must have an entry.
    fn set_action_for(&mut self, id: i16, action_type: ActionKind, pos: Pos)
        requires
            find_action_idx(old(self)@, id) >= 0,
        ensures
            final(self)@ == old(self)@.update(
                find_action_idx(old(self)@, id),
                Action { bot_id: id, action_type, pos },
            ),
    ;
}

impl ActionsList for Vec<Action> {
    fn populate(bots: &Vec<Bot>) -> (res: Vec<Action>) {
        let mut res: Vec<Action> = Vec::new();
        let mut i: usize = 0;
        while i < bots.len()
            invariant
                0 <= i <= bots@.len(),
                res@.len() == i,
                forall|k: int|
                    0 <= k < i ==> (#[trigger] res@[k]) == (Action {
                        bot_id: bots@[k].id,
                        action_type: ActionKind::Noaction,
                        pos: spec_origo(),
                    }),
            decreases bots@.len() - i,
        {
            res.push(Action { bot_id: bots[i].id, action_type: ActionKind::Noaction, pos: Pos { x: 0, y: 0 } });
            i = i + 1;
        }
        res
    }

    fn get_action(&self, id: i16) -> (r: Option<&Action>) {
        proof {
            lemma_find_action_idx(self@, id);
        }
        let mut i: usize = 0;
        while i < self.len()
            invariant
                0 <= i <= self@.len(),
                forall|k: int| 0 <= k < i ==> (#[trigger] self@[k]).bot_id != id,
            decreases self@.len() - i,
        {
            if self[i].bot_id == id {
                proof {
                    let f = find_action_idx(self@, id);
                    assert(self@[i as int].bot_id == id);
                    if f == -1 {
                        assert(false);
                    }
                    if f < i as int {
                        assert(self@[f].bot_id == id);
                        assert(false);
                    }
                    if f > i as int {
                        assert(false);
                    }
                }
                return Some(&self[i]);
            }
            i = i + 1;
        }
        proof {
            if find_action_idx(self@, id) >= 0 {
                assert(self@[find_action_idx(self@, id)].bot_id == id);
                assert(false);
            }
        }
        None
    }

    fn set_action_for(&mut self, id: i16, action_type: ActionKind, pos: Pos) {
        proof {
            lemma_find_action_idx(self@, id);
        }
        let mut i: usize = 0;
        while i < self.len()
            invariant
                self@ == old(self)@,
                0 <= i <= self@.len(),
                forall|k: int| 0 <= k < i ==> (#[trigger] self@[k]).bot_id != id,
            decreases self@.len() - i,
        {
            if self[i].bot_id == id {
                proof {
                    let f = find_action_idx(self@, id);
                    assert(self@[i as int].bot_id == id);
                    if f < i as int {
                        assert(self@[f].bot_id == id);
                    }
                    if f > i as int {
                        assert(false);
                    }
                    assert(f == i as int);
                }
                self[i] = Action { bot_id: id, action_type, pos };
                return ;
            }
            i = i + 1;
        }
        proof {
            assert(self@[find_action_idx(self@, id)].bot_id == id);
            assert(false);
        }
    }
}

/// The append-only round log and its typed query surface.  Entry `i` holds
/// round `i`; a query for a round outside the stored range is a caller
/// error, not an empty result.
pub trait HistoryList: View<V = Seq<HistoryEntry>> {
    /// Stores the relevant events of round `round_id`, replacing that
    /// round's event list if the round exists and opening the round
    /// otherwise.
    fn add_events(&mut self, round_id: i16, events: &Vec<Event>)
        requires
            history_wf(old(self)@),
            0 <= round_id <= old(self)@.len() < 32767,
        ensures
            history_wf(final(self)@),
            round_id < old(self)@.len() ==> {
                &&& final(self)@.len() == old(self)@.len()
                &&& final(self)@[round_id as int].round_id == round_id
                &&& final(self)@[round_id as int].events@ == filter_relevant_spec(events@)
                &&& final(self)@[round_id as int].actions == old(self)@[round_id as int].actions
                &&& final(self)@[round_id as int].decision == old(self)@[round_id as int].decision
                &&& forall|i: int|
                    0 <= i < old(self)@.len() && i != round_id ==> final(self)@[i] == old(self)@[i]
            },
            round_id == old(self)@.len() ==> {
                &&& final(self)@.len() == old(self)@.len() + 1
                &&& final(self)@[round_id as int].round_id == round_id
                &&& final(self)@[round_id as int].events@ == filter_relevant_spec(events@)
                &&& final(self)@[round_id as int].actions@ == Seq::<Action>::empty()
                &&& final(self)@[round_id as int].decision.mode == ActionMode::Nomode
                &&& final(self)@[round_id as int].decision.target is None
                &&& final(self)@[round_id as int].decision.unused_echoes@ == Seq::<Pos>::empty()
                &&& forall|i: int|
                    0 <= i < old(self)@.len() ==> final(self)@[i] == old(self)@[i]
            },
    ;

    /// Stores the actions of round `round_id`, replacing that round's
    /// action list if the round exists and opening the round otherwise.
    fn add_actions(&mut self, round_id: i16, actions: &Vec<Action>)
        requires
            history_wf(old(self)@),
            0 <= round_id <= old(self)@.len() < 32767,
        ensures
            history_wf(final(self)@),
            round_id < old(self)@.len() ==> {
                &&& final(self)@.len() == old(self)@.len()
                &&& final(self)@[round_id as int].round_id == round_id
                &&& final(self)@[round_id as int].actions@ == actions@
                &&& final(self)@[round_id as int].events == old(self)@[round_id as int].events
                &&& final(self)@[round_id as int].decision == old(self)@[round_id as int].decision
                &&& forall|i: int|
                    0 <= i < old(self)@.len() && i != round_id ==> final(self)@[i] == old(self)@[i]
            },
            round_id == old(self)@.len() ==> {
                &&& final(self)@.len() == old(self)@.len() + 1
                &&& final(self)@[round_id as int].round_id == round_id
                &&& final(self)@[round_id as int].actions@ == actions@
                &&& final(self)@[round_id as int].events@ == Seq::<Event>::empty()
                &&& final(self)@[round_id as int].decision.mode == ActionMode::Nomode
                &&& final(self)@[round_id as int].decision.target is None
                &&& final(self)@[round_id as int].decision.unused_echoes@ == Seq::<Pos>::empty()
                &&& forall|i: int|
                    0 <= i < old(self)@.len() ==> final(self)@[i] == old(self)@[i]
            },
    ;

    /// The entry of an existing round.
    fn get(&self, round_id: &i16) -> (r: Option<&HistoryEntry>)
        requires
            history_wf(self@),
            0 <= *round_id < self@.len(),
        ensures
            r is Some,
            *r->0 == self@[*round_id as int],
    ;

    /// The events worth storing, in order.
    fn filter_relevant(&self, events: &Vec<Event>) -> (res: Vec<Event>)
        ensures
            res@ == filter_relevant_spec(events@),
    ;

    /// The events of the given kind from the last `since` rounds, each with
    /// its round id, oldest round first.
    fn get_events(&self, match_event: EventKind, since: i16) -> (res: Vec<(Event, i16)>)
        requires
            history_wf(self@),
            since >= 0,
        ensures
            res@ == events_window(self@, match_event, self@.len() - since as int, self@.len() as int),
    ;

    /// The events of the given kind from one existing round.
    fn get_events_for_round(&self, match_event: EventKind, round_id: i16) -> (res: Vec<Event>)
        requires
            history_wf(self@),
            0 <= round_id < self@.len(),
        ensures
            res@ == events_of_kind(self@[round_id as int].events@, match_event),
    ;

    /// The newest sighting on record: the first echo of its round, or
    /// failing that its first direct sighting.
    fn get_last_enemy_position(&self) -> (r: Option<(Event, i16)>)
        requires
            history_wf(self@),
            self@.len() >= 1,
        ensures
            r == last_enemy_pos(self@, self@.len() as int),
    ;

    /// The newest cannon action on record, with its round.
    fn get_last_attack_action(&self) -> (r: Option<(Action, i16)>)
        requires
            history_wf(self@),
            self@.len() >= 1,
        ensures
            r == last_attack_action(self@, self@.len() as int),
    ;

    /// The sighted positions of the last `since` rounds, oldest round
    /// first, each with its round; See and Echo evidence merged.
    fn get_echo_positions(&self, since: i16) -> (res: Vec<(Pos, i16)>)
        requires
            history_wf(self@),
            since >= 0,
        ensures
            res@ == echo_pairs_window(self@, self@.len() - since as int, self@.len() as int),
    ;

    /// The unresolved sightings of the last `since` rounds: unused echoes
    /// that no later round targeted, newest round first.
    fn get_unused_echoes(&self, since: i16) -> (res: Vec<(Pos, i16)>)
        requires
            history_wf(self@),
            since >= 0,
        ensures
            res@ == unused_desc(self@, self@.len() - since as int, self@.len() as int),
    ;

    /// The actions of the given kind from the last `since` rounds, each
    /// with its round id, oldest round first.
    fn get_actions(&self, match_action: ActionKind, since: i16) -> (res: Vec<(Action, i16)>)
        requires
            history_wf(self@),
            since >= 0,
        ensures
            res@ == actions_window(self@, match_action, self@.len() - since as int, self@.len() as int),
    ;

    /// The actions of one existing round, all of them or only one kind.
    fn get_actions_for_round(&self, match_action: Option<ActionKind>, round_id: i16) -> (res: Vec<
        Action,
    >)
        requires
            history_wf(self@),
            0 <= round_id < self@.len(),
        ensures
            res@ == actions_of_kind(self@[round_id as int].actions@, match_action),
    ;

    /// The first action of a bot in one existing round, if any.
    fn get_action_for_bot(&self, bot_id: &i16, round_id: &i16) -> (r: Option<Action>)
        requires
            history_wf(self@),
            0 <= *round_id < self@.len(),
        ensures
            r is Some <==> find_action_idx(self@[*round_id as int].actions@, *bot_id) >= 0,
            r is Some ==> r->0 == self@[*round_id as int].actions@[find_action_idx(
                self@[*round_id as int].actions@,
                *bot_id,
            )],
    ;

    /// Sets an existing round's mode, leaving the rest of its decision.
    fn set_mode(&mut self, round_id: &i16, mode: ActionMode)
        requires
            history_wf(old(self)@),
            0 <= *round_id < old(self)@.len(),
        ensures
            history_wf(final(self)@),
            final(self)@.len() == old(self)@.len(),
            final(self)@[*round_id as int].decision.mode == mode,
            final(self)@[*round_id as int].decision.target == old(self)@[*round_id as int].decision.target,
            final(self)@[*round_id as int].decision.unused_echoes == old(
                self,
            )@[*round_id as int].decision.unused_echoes,
            final(self)@[*round_id as int].round_id == old(self)@[*round_id as int].round_id,
            final(self)@[*round_id as int].events == old(self)@[*round_id as int].events,
            final(self)@[*round_id as int].actions == old(self)@[*round_id as int].actions,
            forall|i: int|
                0 <= i < old(self)@.len() && i != *round_id ==> final(self)@[i] == old(self)@[i],
    ;

    /// An existing round's mode.
    fn get_mode(&self, round_id: i16) -> (m: ActionMode)
        requires
            history_wf(self@),
            0 <= round_id < self@.len(),
        ensures
            m == self@[round_id as int].decision.mode,
    ;

    /// Replaces an existing round's decision.
    fn set_decision(&mut self, round_id: i16, decision: Decision)
        requires
            history_wf(old(self)@),
            0 <= round_id < old(self)@.len(),
        ensures
            history_wf(final(self)@),
            final(self)@.len() == old(self)@.len(),
            final(self)@[round_id as int].decision == decision,
            final(self)@[round_id as int].round_id == old(self)@[round_id as int].round_id,
            final(self)@[round_id as int].events == old(self)@[round_id as int].events,
            final(self)@[round_id as int].actions == old(self)@[round_id as int].actions,
            forall|i: int|
                0 <= i < old(self)@.len() && i != round_id ==> final(self)@[i] == old(self)@[i],
    ;

    /// A copy of an existing round's decision.
    fn get_decision(&self, round_id: i16) -> (d: Decision)
        requires
            history_wf(self@),
            0 <= round_id < self@.len(),
        ensures
            d.mode == self@[round_id as int].decision.mode,
            d.target == self@[round_id as int].decision.target,
            d.unused_echoes@ == self@[round_id as int].decision.unused_echoes@,
    ;
}

/// An element-for-element copy of an action vector.
fn copy_actions(v: &Vec<Action>) -> (out: Vec<Action>)
    ensures
        out@ == v@,
{
    let mut out: Vec<Action> = Vec::new();
    let mut i: usize = 0;
    while i < v.len()
        invariant
            0 <= i <= v@.len(),
            out@ == v@.take(i as int),
        decreases v@.len() - i,
    {
        out.push(v[i]);
        proof {
            assert(out@ =~= v@.take(i as int + 1));
        }
        i = i + 1;
    }
    proof {
        assert(v@.take(v@.len() as int) =~= v@);
    }
    out
}

/// Whether some round after `round` targeted `p`.
fn used_later_exec(h: &Vec<HistoryEntry>, p: Pos, round: i16) -> (r: bool)
    ensures
        r == used_later(h@, p, round as int),
{
    let mut j: usize = 0;
    while j < h.len()
        invariant
            0 <= j <= h@.len(),
            forall|k: int|
                0 <= k < j ==> !((#[trigger] h@[k]).decision.target is Some
                    && h@[k].decision.target->0 == p && h@[k].round_id > round),
        decreases h@.len() - j,
    {
        let entry = &h[j];
        match &entry.decision.target {
            Some(t) => {
                if t.x == p.x && t.y == p.y && entry.round_id > round {
                    proof {
                        assert(h@[j as int].decision.target is Some && h@[j as int].decision.target->0
                            == p && h@[j as int].round_id > round);
                    }
                    return true;
                }
            },
            None => {},
        }
        proof {
            assert(!(h@[j as int].decision.target is Some && h@[j as int].decision.target->0 == p
                && h@[j as int].round_id > round));
        }
        j = j + 1;
    }
    false
}

/// Taking one more round off the cutoff appends that round's block.
proof fn lemma_unused_desc_peel(h: Seq<HistoryEntry>, c: int, n: int)
    requires
        0 <= c < n,
    ensures
        unused_desc(h, c, n) == unused_desc(h, c + 1, n) + unused_block(
            h,
            h[c].decision.unused_echoes@,
            h[c].round_id,
        ),
    decreases n,
{
    let blk = unused_block(h, h[c].decision.unused_echoes@, h[c].round_id);
    if n == c + 1 {
        assert(unused_desc(h, c, n) == blk + unused_desc(h, c, c));
        assert(unused_desc(h, c + 1, n) =~= Seq::<(Pos, i16)>::empty());
        assert(unused_desc(h, c + 1, n) + blk =~= blk);
        assert(blk + unused_desc(h, c, c) =~= blk);
    } else {
        lemma_unused_desc_peel(h, c, n - 1);
        let top = unused_block(h, h[n - 1].decision.unused_echoes@, h[n - 1].round_id);
        assert(unused_desc(h, c, n) == top + unused_desc(h, c, n - 1));
        assert(unused_desc(h, c + 1, n) == top + unused_desc(h, c + 1, n - 1));
        assert(top + (unused_desc(h, c + 1, n - 1) + blk) =~= (top + unused_desc(h, c + 1, n - 1))
            + blk);
    }
}

impl HistoryList for Vec<HistoryEntry> {
    fn add_events(&mut self, round_id: i16, events: &Vec<Event>) {
        let filtered = self.filter_relevant(events);
        let idx = round_id as usize;
        if self.len() > idx {
            let ghost orig = self@;
            let mut entry = self.remove(idx);
            entry.events = filtered;
            let ghost e2 = entry;
            self.insert(idx, entry);
            proof {
                assert(self@ =~= orig.update(idx as int, e2));
            }
        } else {
            self.push(
                HistoryEntry {
                    round_id,
                    events: filtered,
                    actions: Vec::new(),
                    decision: Decision::with_defaults(),
                },
            );
        }
    }

    fn add_actions(&mut self, round_id: i16, actions: &Vec<Action>) {
        let copied = copy_actions(actions);
        let idx = round_id as usize;
        if self.len() > idx {
            let ghost orig = self@;
            let mut entry = self.remove(idx);
            entry.actions = copied;
            let ghost e2 = entry;
            self.insert(idx, entry);
            proof {
                assert(self@ =~= orig.update(idx as int, e2));
            }
        } else {
            self.push(
                HistoryEntry {
                    round_id,
                    events: Vec::new(),
                    actions: copied,
                    decision: Decision::with_defaults(),
                },
            );
        }
    }

    fn get(&self, round_id: &i16) -> (r: Option<&HistoryEntry>) {
        let idx = *round_id as usize;
        Some(&self[idx])
    }

    fn filter_relevant(&self, events: &Vec<Event>) -> (res: Vec<Event>) {
        let mut res: Vec<Event> = Vec::new();
        let mut j: usize = 0;
        while j < events.len()
            invariant
                0 <= j <= events@.len(),
                res@ == filter_relevant_spec(events@.take(j as int)),
            decreases events@.len() - j,
        {
            let e = events[j];
            proof {
                assert(events@.take(j as int + 1).drop_last() =~= events@.take(j as int));
                assert(events@.take(j as int + 1).last() == events@[j as int]);
            }
            match e.kind() {
                EventKind::Noaction => {},
                EventKind::Invalid => {},
                _ => { res.push(e); },
            }
            j = j + 1;
        }
        proof {
            assert(events@.take(events@.len() as int) =~= events@);
        }
        res
    }

    fn get_events(&self, match_event: EventKind, since: i16) -> (res: Vec<(Event, i16)>) {
        let ghost cutoff = self@.len() - since as int;
        let len = self.len();
        let start: usize = if since as usize >= len {
            0
        } else {
            len - since as usize
        };
        proof {
            lemma_events_window_empty(self@, match_event, cutoff, start as int);
        }
        let mut res: Vec<(Event, i16)> = Vec::new();
        let mut i: usize = start;
        while i < len
            invariant
                start <= i <= len,
                len == self@.len(),
                res@ == events_window(self@, match_event, cutoff, i as int),
            decreases len - i,
        {
            let entry = &self[i];
            let rid = entry.round_id;
            let ghost prev = res@;
            let mut j: usize = 0;
            while j < entry.events.len()
                invariant
                    0 <= j <= entry.events@.len(),
                    res@ == prev + tag_events(
                        events_of_kind(entry.events@.take(j as int), match_event),
                        rid,
                    ),
            decreases entry.events@.len() - j,
            {
                let e = entry.events[j];
                proof {
                    assert(entry.events@.take(j as int + 1).drop_last() =~= entry.events@.take(
                        j as int,
                    ));
                    assert(entry.events@.take(j as int + 1).last() == entry.events@[j as int]);
                }
                let ghost fk = events_of_kind(entry.events@.take(j as int), match_event);
                if e.kind() == match_event {
                    res.push((e, rid));
                    proof {
                        assert(tag_events(fk.push(e), rid) =~= tag_events(fk, rid).push((e, rid)));
                        assert(res@ =~= prev + tag_events(fk, rid).push((e, rid)));
                    }
                }
                j = j + 1;
            }
            proof {
                assert(entry.events@.take(entry.events@.len() as int) =~= entry.events@);
                assert(i as int >= cutoff && (i as int) < self@.len());
            }
            i = i + 1;
        }
        res
    }

    fn get_events_for_round(&self, match_event: EventKind, round_id: i16) -> (res: Vec<Event>) {
        let idx = round_id as usize;
        let entry = &self[idx];
        let mut res: Vec<Event> = Vec::new();
        let mut j: usize = 0;
        while j < entry.events.len()
            invariant
                0 <= j <= entry.events@.len(),
                res@ == events_of_kind(entry.events@.take(j as int), match_event),
            decreases entry.events@.len() - j,
        {
            let e = entry.events[j];
            proof {
                assert(entry.events@.take(j as int + 1).drop_last() =~= entry.events@.take(
                    j as int,
                ));
                assert(entry.events@.take(j as int + 1).last() == entry.events@[j as int]);
            }
            if e.kind() == match_event {
                res.push(e);
            }
            j = j + 1;
        }
        proof {
            assert(entry.events@.take(entry.events@.len() as int) =~= entry.events@);
        }
        res
    }

    fn get_last_enemy_position(&self) -> (r: Option<(Event, i16)>) {
        let mut i: usize = self.len();
        while i > 0
            invariant
                0 <= i <= self@.len(),
                last_enemy_pos(self@, self@.len() as int) == last_enemy_pos(self@, i as int),
            decreases i,
        {
            let idx = i - 1;
            let mut c = self.get_events_for_round(EventKind::Echo, idx as i16);
            let mut sees = self.get_events_for_round(EventKind::See, idx as i16);
            c.append(&mut sees);
            if c.len() > 0 {
                let ev = c[0];
                let rid = self[idx].round_id;
                return Some((ev, rid));
            }
            i = idx;
        }
        None
    }

    fn get_last_attack_action(&self) -> (r: Option<(Action, i16)>) {
        let mut i: usize = self.len();
        while i > 0
            invariant
                0 <= i <= self@.len(),
                last_attack_action(self@, self@.len() as int) == last_attack_action(
                    self@,
                    i as int,
                ),
            decreases i,
        {
            let idx = i - 1;
            let c = self.get_actions_for_round(Some(ActionKind::Cannon), idx as i16);
            if c.len() > 0 {
                let ac = c[0];
                let rid = self[idx].round_id;
                return Some((ac, rid));
            }
            i = idx;
        }
        None
    }

    fn get_echo_positions(&self, since: i16) -> (res: Vec<(Pos, i16)>) {
        let ghost cutoff = self@.len() - since as int;
        let len = self.len();
        let start: usize = if since as usize >= len {
            0
        } else {
            len - since as usize
        };
        proof {
            lemma_echo_pairs_window_empty(self@, cutoff, start as int);
        }
        let mut res: Vec<(Pos, i16)> = Vec::new();
        let mut i: usize = start;
        while i < len
            invariant
                start <= i <= len,
                len == self@.len(),
                res@ == echo_pairs_window(self@, cutoff, i as int),
            decreases len - i,
        {
            let rid = self[i].round_id;
            let mut c = self.get_events_for_round(EventKind::See, i as i16);
            let mut echoes = self.get_events_for_round(EventKind::Echo, i as i16);
            c.append(&mut echoes);
            let ghost prev = res@;
            let mut j: usize = 0;
            while j < c.len()
                invariant
                    0 <= j <= c@.len(),
                    res@ == prev + pos_pairs(c@.take(j as int), rid),
                decreases c@.len() - j,
            {
                let e = c[j];
                let p = match e {
                    Event::See { pos, .. } => pos,
                    Event::Echo { pos } => pos,
                    Event::Move { pos, .. } => pos,
                    _ => Pos { x: 0, y: 0 },
                };
                res.push((p, rid));
                proof {
                    assert(p == event_pos(c@[j as int]));
                    assert(pos_pairs(c@.take(j as int + 1), rid) =~= pos_pairs(
                        c@.take(j as int),
                        rid,
                    ).push((p, rid)));
                    assert(res@ =~= prev + pos_pairs(c@.take(j as int), rid).push((p, rid)));
                }
                j = j + 1;
            }
            proof {
                assert(c@.take(c@.len() as int) =~= c@);
                assert(c@ == see_echo_seq(self@[i as int].events@));
                assert(i as int >= cutoff && (i as int) < self@.len());
            }
            i = i + 1;
        }
        res
    }

    fn get_unused_echoes(&self, since: i16) -> (res: Vec<(Pos, i16)>) {
        let ghost cutoff = self@.len() - since as int;
        let len = self.len();
        let lo: usize = if since as usize >= len {
            0
        } else {
            len - since as usize
        };
        let mut res: Vec<(Pos, i16)> = Vec::new();
        let mut i: usize = len;
        while i > lo
            invariant
                lo <= i <= len,
                len == self@.len(),
                res@ == unused_desc(self@, i as int, len as int),
            decreases i,
        {
            let idx = i - 1;
            let entry = &self[idx];
            let rid = entry.round_id;
            let ghost prev = res@;
            let mut j: usize = 0;
            while j < entry.decision.unused_echoes.len()
                invariant
                    0 <= j <= entry.decision.unused_echoes@.len(),
                    res@ == prev + unused_block(
                        self@,
                        entry.decision.unused_echoes@.take(j as int),
                        rid,
                    ),
                decreases entry.decision.unused_echoes@.len() - j,
            {
                let p = entry.decision.unused_echoes[j];
                proof {
                    assert(entry.decision.unused_echoes@.take(j as int + 1).drop_last()
                        =~= entry.decision.unused_echoes@.take(j as int));
                    assert(entry.decision.unused_echoes@.take(j as int + 1).last()
                        == entry.decision.unused_echoes@[j as int]);
                }
                if !used_later_exec(self, p, rid) {
                    res.push((p, rid));
                }
                j = j + 1;
            }
            proof {
                assert(entry.decision.unused_echoes@.take(entry.decision.unused_echoes@.len() as int)
                    =~= entry.decision.unused_echoes@);
                lemma_unused_desc_peel(self@, idx as int, len as int);
                assert(unused_desc(self@, idx as int, len as int) == unused_desc(
                    self@,
                    i as int,
                    len as int,
                ) + unused_block(self@, self@[idx as int].decision.unused_echoes@, rid));
            }
            i = idx;
        }
        proof {
            if cutoff < 0 {
                lemma_unused_desc_nonneg(self@, cutoff, len as int);
            }
        }
        res
    }

    fn get_actions(&self, match_action: ActionKind, since: i16) -> (res: Vec<(Action, i16)>) {
        let ghost cutoff = self@.len() - since as int;
        let len = self.len();
        let start: usize = if since as usize >= len {
            0
        } else {
            len - since as usize
        };
        proof {
            lemma_actions_window_empty(self@, match_action, cutoff, start as int);
        }
        let mut res: Vec<(Action, i16)> = Vec::new();
        let mut i: usize = start;
        while i < len
            invariant
                start <= i <= len,
                len == self@.len(),
                res@ == actions_window(self@, match_action, cutoff, i as int),
            decreases len - i,
        {
            let entry = &self[i];
            let rid = entry.round_id;
            let ghost prev = res@;
            let mut j: usize = 0;
            while j < entry.actions.len()
                invariant
                    0 <= j <= entry.actions@.len(),
                    res@ == prev + tag_actions(
                        actions_of_kind(entry.actions@.take(j as int), Some(match_action)),
                        rid,
                    ),
                decreases entry.actions@.len() - j,
            {
                let a = entry.actions[j];
                proof {
                    assert(entry.actions@.take(j as int + 1).drop_last() =~= entry.actions@.take(
                        j as int,
                    ));
                    assert(entry.actions@.take(j as int + 1).last() == entry.actions@[j as int]);
                }
                let ghost fk = actions_of_kind(entry.actions@.take(j as int), Some(match_action));
                if a.action_type == match_action {
                    res.push((a, rid));
                    proof {
                        assert(tag_actions(fk.push(a), rid) =~= tag_actions(fk, rid).push(
                            (a, rid),
                        ));
                        assert(res@ =~= prev + tag_actions(fk, rid).push((a, rid)));
                    }
                }
                j = j + 1;
            }
            proof {
                assert(entry.actions@.take(entry.actions@.len() as int) =~= entry.actions@);
                assert(i as int >= cutoff && (i as int) < self@.len());
            }
            i = i + 1;
        }
        res
    }

    fn get_actions_for_round(&self, match_action: Option<ActionKind>, round_id: i16) -> (res: Vec<
        Action,
    >) {
        let idx = round_id as usize;
        let entry = &self[idx];
        let mut res: Vec<Action> = Vec::new();
        let mut j: usize = 0;
        while j < entry.actions.len()
            invariant
                0 <= j <= entry.actions@.len(),
                res@ == actions_of_kind(entry.actions@.take(j as int), match_action),
            decreases entry.actions@.len() - j,
        {
            let a = entry.actions[j];
            proof {
                assert(entry.actions@.take(j as int + 1).drop_last() =~= entry.actions@.take(
                    j as int,
                ));
                assert(entry.actions@.take(j as int + 1).last() == entry.actions@[j as int]);
            }
            let keep = match match_action {
                None => true,
                Some(k) => a.action_type == k,
            };
            if keep {
                res.push(a);
            }
            j = j + 1;
        }
        proof {
            assert(entry.actions@.take(entry.actions@.len() as int) =~= entry.actions@);
        }
        res
    }

    fn get_action_for_bot(&self, bot_id: &i16, round_id: &i16) -> (r: Option<Action>) {
        let idx = *round_id as usize;
        let actions = &self[idx].actions;
        proof {
            lemma_find_action_idx(actions@, *bot_id);
        }
        let mut i: usize = 0;
        while i < actions.len()
            invariant
                0 <= i <= actions@.len(),
                actions@ == self@[*round_id as int].actions@,
                forall|k: int| 0 <= k < i ==> (#[trigger] actions@[k]).bot_id != *bot_id,
            decreases actions@.len() - i,
        {
            if actions[i].bot_id == *bot_id {
                proof {
                    let f = find_action_idx(actions@, *bot_id);
                    assert(actions@[i as int].bot_id == *bot_id);
                    if f == -1 {
                        assert(false);
                    }
                    if f < i as int {
                        assert(actions@[f].bot_id == *bot_id);
                        assert(false);
                    }
                    if f > i as int {
                        assert(false);
                    }
                }
                return Some(actions[i]);
            }
            i = i + 1;
        }
        proof {
            if find_action_idx(actions@, *bot_id) >= 0 {
                assert(actions@[find_action_idx(actions@, *bot_id)].bot_id == *bot_id);
                assert(false);
            }
        }
        None
    }

    fn set_mode(&mut self, round_id: &i16, mode: ActionMode) {
        let idx = *round_id as usize;
        let ghost orig = self@;
        let mut entry = self.remove(idx);
        entry.decision.mode = mode;
        let ghost e2 = entry;
        self.insert(idx, entry);
        proof {
            assert(self@ =~= orig.update(idx as int, e2));
        }
    }

    fn get_mode(&self, round_id: i16) -> (m: ActionMode) {
        let idx = round_id as usize;
        self[idx].decision.mode
    }

    fn set_decision(&mut self, round_id: i16, decision: Decision) {
        let idx = round_id as usize;
        let ghost orig = self@;
        let mut entry = self.remove(idx);
        entry.decision = decision;
        let ghost e2 = entry;
        self.insert(idx, entry);
        proof {
            assert(self@ =~= orig.update(idx as int, e2));
        }
    }

    fn get_decision(&self, round_id: i16) -> (d: Decision) {
        let idx = round_id as usize;
        let entry = &self[idx];
        Decision {
            mode: entry.decision.mode,
            target: entry.decision.target,
            unused_echoes: crate::util::copy_pos_vec(&entry.decision.unused_echoes),
        }
    }
}


/// Every event the kind filter keeps comes from the filtered sequence.
pub proof fn lemma_events_of_kind_subset(s: Seq<Event>, k: EventKind)
    ensures
        forall|i: int|
            0 <= i < events_of_kind(s, k).len() ==> exists|j: int|
                0 <= j < s.len() && #[trigger] events_of_kind(s, k)[i] == s[j],
    decreases s.len(),
{
    if s.len() > 0 {
        lemma_events_of_kind_subset(s.drop_last(), k);
        let f = events_of_kind(s, k);
        let fr = events_of_kind(s.drop_last(), k);
        assert forall|i: int| 0 <= i < f.len() implies exists|j: int|
            0 <= j < s.len() && #[trigger] f[i] == s[j] by {
            if i < fr.len() {
                assert(f[i] == fr[i]);
                let j = choose|j: int| 0 <= j < s.drop_last().len() && #[trigger] fr[i] == s.drop_last()[j];
                assert(f[i] == s[j]);
            } else {
                assert(f[i] == s.last());
                assert(f[i] == s[s.len() - 1]);
            }
        }
    }
}

/// Every action the kind filter keeps comes from the filtered sequence,
/// and carries the requested kind.
pub proof fn lemma_actions_of_kind_subset(s: Seq<Action>, k: Option<ActionKind>)
    ensures
        forall|i: int|
            0 <= i < actions_of_kind(s, k).len() ==> exists|j: int|
                0 <= j < s.len() && #[trigger] actions_of_kind(s, k)[i] == s[j],
        forall|i: int|
            0 <= i < actions_of_kind(s, k).len() && k is Some ==> (#[trigger] actions_of_kind(
                s,
                k,
            )[i]).action_type == k->0,
    decreases s.len(),
{
    if s.len() > 0 {
        lemma_actions_of_kind_subset(s.drop_last(), k);
        let f = actions_of_kind(s, k);
        let fr = actions_of_kind(s.drop_last(), k);
        assert forall|i: int| 0 <= i < f.len() implies exists|j: int|
            0 <= j < s.len() && #[trigger] f[i] == s[j] by {
            if i < fr.len() {
                assert(f[i] == fr[i]);
                let j = choose|j: int| 0 <= j < s.drop_last().len() && #[trigger] fr[i] == s.drop_last()[j];
                assert(f[i] == s[j]);
            } else {
                assert(f[i] == s[s.len() - 1]);
            }
        }
        assert forall|i: int| 0 <= i < f.len() && k is Some implies (#[trigger] f[i]).action_type
            == k->0 by {
            if i < fr.len() {
                assert(f[i] == fr[i]);
            }
        }
    }
}

/// Two action lists with the same ids in the same places index the same.
pub proof fn lemma_find_action_idx_ids(s: Seq<Action>, t: Seq<Action>, id: i16)
    requires
        s.len() == t.len(),
        forall|j: int| 0 <= j < s.len() ==> (#[trigger] s[j]).bot_id == t[j].bot_id,
    ensures
        find_action_idx(s, id) == find_action_idx(t, id),
    decreases s.len(),
{
    if s.len() > 0 {
        assert(s[0].bot_id == t[0].bot_id);
        if s[0].bot_id != id {
            let ds = s.drop_first();
            let dt = t.drop_first();
            assert forall|j: int| 0 <= j < ds.len() implies (#[trigger] ds[j]).bot_id
                == dt[j].bot_id by {
                assert(ds[j] == s.subrange(1, s.len() as int)[j]);
                assert(dt[j] == t.subrange(1, t.len() as int)[j]);
                assert(s[j + 1].bot_id == t[j + 1].bot_id);
            }
            lemma_find_action_idx_ids(ds, dt, id);
        }
    }
}

/// Every position kept by the inequality filter comes from the input.
pub proof fn lemma_filter_ne_subset(s: Seq<Pos>, t: Pos)
    ensures
        forall|i: int|
            0 <= i < filter_ne(s, t).len() ==> exists|j: int|
                0 <= j < s.len() && #[trigger] filter_ne(s, t)[i] == s[j],
    decreases s.len(),
{
    if s.len() > 0 {
        lemma_filter_ne_subset(s.drop_last(), t);
        let f = filter_ne(s, t);
        let fr = filter_ne(s.drop_last(), t);
        assert forall|i: int| 0 <= i < f.len() implies exists|j: int|
            0 <= j < s.len() && #[trigger] f[i] == s[j] by {
            if i < fr.len() {
                assert(f[i] == fr[i]);
                let j = choose|j: int| 0 <= j < s.drop_last().len() && #[trigger] fr[i] == s.drop_last()[j];
                assert(f[i] == s[j]);
            } else {
                assert(f[i] == s[s.len() - 1]);
            }
        }
    }
}

/// Every sighted position of the window lies within `bound` of the origin,
/// as long as every stored event position does.
pub proof fn lemma_echo_pairs_window_bound(h: Seq<HistoryEntry>, cutoff: int, n: int, bound: int)
    requires
        n <= h.len(),
        forall|r: int, j: int|
            0 <= r < h.len() && 0 <= j < (#[trigger] h[r]).events@.len() ==> crate::position::dist(
                event_pos(#[trigger] h[r].events@[j]),
                spec_origo(),
            ) <= bound,
    ensures
        forall|i: int|
            0 <= i < echo_pairs_window(h, cutoff, n).len() ==> crate::position::dist(
                (#[trigger] echo_pairs_window(h, cutoff, n)[i]).0,
                spec_origo(),
            ) <= bound,
    decreases n,
{
    if n > 0 {
        lemma_echo_pairs_window_bound(h, cutoff, n - 1, bound);
        let w = echo_pairs_window(h, cutoff, n);
        let rest = echo_pairs_window(h, cutoff, n - 1);
        if n - 1 >= cutoff {
            let ev = h[n - 1].events@;
            let c = see_echo_seq(ev);
            lemma_events_of_kind_subset(ev, EventKind::See);
            lemma_events_of_kind_subset(ev, EventKind::Echo);
            assert forall|i: int| 0 <= i < c.len() implies crate::position::dist(
                event_pos(#[trigger] c[i]),
                spec_origo(),
            ) <= bound by {
                let sees = events_of_kind(ev, EventKind::See);
                if i < sees.len() {
                    assert(c[i] == sees[i]);
                    let j = choose|j: int| 0 <= j < ev.len() && #[trigger] sees[i] == ev[j];
                } else {
                    let echoes = events_of_kind(ev, EventKind::Echo);
                    assert(c[i] == echoes[i - sees.len()]);
                    let j = choose|j: int|
                        0 <= j < ev.len() && #[trigger] echoes[i - sees.len()] == ev[j];
                }
            }
            assert forall|i: int| 0 <= i < w.len() implies crate::position::dist(
                (#[trigger] w[i]).0,
                spec_origo(),
            ) <= bound by {
                if i < rest.len() {
                    assert(w[i] == rest[i]);
                } else {
                    let p = pos_pairs(c, h[n - 1].round_id);
                    assert(w[i] == p[i - rest.len()]);
                    assert(p[i - rest.len()].0 == event_pos(c[i - rest.len()]));
                }
            }
        }
    }
}


/// Every unresolved sighting of one round's block lies within `bound` of
/// the origin when that round's unused echoes do.
proof fn lemma_unused_block_bound(h: Seq<HistoryEntry>, s: Seq<Pos>, round: i16, bound: int)
    requires
        forall|j: int|
            0 <= j < s.len() ==> crate::position::dist(#[trigger] s[j], spec_origo()) <= bound,
    ensures
        forall|i: int|
            0 <= i < unused_block(h, s, round).len() ==> crate::position::dist(
                (#[trigger] unused_block(h, s, round)[i]).0,
                spec_origo(),
            ) <= bound,
    decreases s.len(),
{
    if s.len() > 0 {
        lemma_unused_block_bound(h, s.drop_last(), round, bound);
        let b = unused_block(h, s, round);
        let br = unused_block(h, s.drop_last(), round);
        assert forall|i: int| 0 <= i < b.len() implies crate::position::dist(
            (#[trigger] b[i]).0,
            spec_origo(),
        ) <= bound by {
            if i < br.len() {
                assert(b[i] == br[i]);
            } else {
                assert(b[i].0 == s[s.len() - 1]);
            }
        }
    }
}

/// Every unresolved sighting of the descending window lies within `bound`
/// of the origin when every stored unused echo does.
pub proof fn lemma_unused_desc_bound(h: Seq<HistoryEntry>, cutoff: int, n: int, bound: int)
    requires
        n <= h.len(),
        forall|r: int, j: int|
            0 <= r < h.len() && 0 <= j < (#[trigger] h[r]).decision.unused_echoes@.len()
                ==> crate::position::dist(
                #[trigger] h[r].decision.unused_echoes@[j],
                spec_origo(),
            ) <= bound,
    ensures
        forall|i: int|
            0 <= i < unused_desc(h, cutoff, n).len() ==> crate::position::dist(
                (#[trigger] unused_desc(h, cutoff, n)[i]).0,
                spec_origo(),
            ) <= bound,
    decreases n,
{
    if n > 0 && n > cutoff {
        lemma_unused_desc_bound(h, cutoff, n - 1, bound);
        let w = unused_desc(h, cutoff, n);
        let blk = unused_block(h, h[n - 1].decision.unused_echoes@, h[n - 1].round_id);
        lemma_unused_block_bound(h, h[n - 1].decision.unused_echoes@, h[n - 1].round_id, bound);
        assert forall|i: int| 0 <= i < w.len() implies crate::position::dist(
            (#[trigger] w[i]).0,
            spec_origo(),
        ) <= bound by {
            if i < blk.len() {
                assert(w[i] == blk[i]);
            } else {
                assert(w[i] == unused_desc(h, cutoff, n - 1)[i - blk.len()]);
            }
        }
    }
}

} // verus!
