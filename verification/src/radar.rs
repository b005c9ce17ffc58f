//! The radar sweep: a deterministic, finite sequence of scan centers whose
//! disks tile the board, generated row by row from the top.
//!
//! Within a row the centers step by twice the radar radius; when a row's
//! right bound is passed the sweep moves down one row and resets to the
//! row's (shrinking) left bound, and it ends when the next row would leave
//! the board.

use vstd::prelude::*;
use crate::defs::{Config, config_wf};
use crate::position::{Pos, pos_near_board};
use crate::util::copy_pos_vec;

verus! {

/// The sweep's row bookkeeping: the current row's bounds and how they move
/// from row to row.
#[derive(Clone, Copy, Debug)]
pub struct RadarMeta {
    pub field_radius: i16,
    pub radar_radius: i16,
    pub row_start: i16,
    pub row_end: i16,
    pub row_start_change: i16,
    pub row_end_change: i16,
}

/// The sweep's cached positions for one configuration.
pub struct Radar {
    pub radar_positions: Vec<Pos>,
    pub meta: RadarMeta,
}

/// One step of the sweep: the last emitted center, or nothing once the
/// sweep has ended, plus the row bookkeeping.
pub struct RadarPass {
    pub last_pos: Option<Pos>,
    pub meta: RadarMeta,
}

/// The bookkeeping state [`RadarMeta::new`] sets up.
pub open spec fn spec_meta_new(field_radius: i16, radar_radius: i16) -> RadarMeta {
    RadarMeta {
        field_radius,
        radar_radius,
        row_start: 0,
        row_end: (field_radius - radar_radius) as i16,
        row_start_change: (-(radar_radius + 1)) as i16,
        row_end_change: 0,
    }
}

/// The radii a sweep can be run for.
pub open spec fn radii_wf(fr: i16, rr: i16) -> bool {
    1 <= rr <= 400 && rr <= fr <= 1000
}

/// A live sweep state: the bookkeeping is in one of its two phases (left
/// bound still extending; right bound shrinking), and the cursor sits
/// within the reach of its row.
pub open spec fn pass_wf(p: RadarPass) -> bool {
    p.last_pos is Some ==> {
        let m = p.meta;
        let pos = p.last_pos->0;
        &&& radii_wf(m.field_radius, m.radar_radius)
        &&& -(m.field_radius + m.radar_radius + 1) <= m.row_start <= 0
        &&& m.row_end <= m.field_radius + 1
        &&& -(m.field_radius + m.radar_radius + 1) <= pos.x
        &&& pos.x < m.row_end + 4 * m.radar_radius + 2
        &&& pos.x <= m.field_radius + 2 * m.radar_radius + 1
        &&& -(m.field_radius as int) <= pos.y <= m.field_radius + m.radar_radius + 1
        &&& {
            ||| (m.row_start_change == -(m.radar_radius + 1) && m.row_end_change == 0 && m.row_end
                == m.field_radius - m.radar_radius)
            ||| (m.row_start_change == 0 && m.row_end_change == -(m.radar_radius + 1)
                && m.row_start == -(m.field_radius - m.radar_radius) && -2 * m.radar_radius
                <= m.row_end + pos.y <= m.field_radius + 1)
        }
    }
}

/// Decreases with every step of a live sweep.
pub open spec fn pass_measure(p: RadarPass) -> int {
    if p.last_pos is Some {
        (p.meta.field_radius + p.meta.radar_radius + 1 - p.last_pos->0.y) * 4000 + (p.meta.row_end
            - p.last_pos->0.x + 4000)
    } else {
        0
    }
}

/// What one sweep step yields: the next center along the row, the first
/// center of the next row, or the end of the sweep.
pub open spec fn spec_next_pass(p: RadarPass) -> RadarPass {
    let last = p.last_pos->0;
    let m = p.meta;
    if last.x >= m.row_end {
        let rs1 = m.row_start + m.row_start_change;
        let re1 = m.row_end + m.row_end_change;
        let m2 = if rs1 <= -m.field_radius {
            let sub = if last.y + 2 * m.radar_radius > 0 {
                last.y + 2 * m.radar_radius
            } else {
                0
            };
            RadarMeta {
                row_start: (-(m.field_radius - m.radar_radius)) as i16,
                row_end: (m.field_radius - sub - m.radar_radius) as i16,
                row_start_change: 0,
                row_end_change: (-(m.radar_radius + 1)) as i16,
                ..m
            }
        } else {
            RadarMeta { row_start: rs1 as i16, row_end: re1 as i16, ..m }
        };
        if last.y + m.radar_radius + 1 > m.field_radius {
            RadarPass { last_pos: None, meta: m2 }
        } else {
            RadarPass {
                last_pos: Some(Pos { x: m2.row_start, y: (last.y + m.radar_radius + 1) as i16 }),
                meta: m2,
            }
        }
    } else {
        RadarPass { last_pos: Some(Pos { x: (last.x + 2 * m.radar_radius) as i16, y: last.y }), meta: m }
    }
}

/// A sweep step stays well formed, shrinks the measure, and emits only
/// near-board centers.
pub proof fn lemma_next_pass_wf(p: RadarPass)
    requires
        pass_wf(p),
        p.last_pos is Some,
    ensures
        pass_wf(spec_next_pass(p)),
        spec_next_pass(p).last_pos is Some ==> pass_measure(spec_next_pass(p)) < pass_measure(p),
        spec_next_pass(p).last_pos is Some ==> pos_near_board(spec_next_pass(p).last_pos->0),
{
}

/// The centers a live sweep still has to emit.
pub open spec fn spec_radar_rest(p: RadarPass) -> Seq<Pos>
    decreases pass_measure(p),
        when pass_wf(p) via spec_radar_rest_decreases
{
    if p.last_pos is Some {
        let n = spec_next_pass(p);
        if n.last_pos is Some {
            seq![n.last_pos->0] + spec_radar_rest(n)
        } else {
            Seq::empty()
        }
    } else {
        Seq::empty()
    }
}

#[via_fn]
proof fn spec_radar_rest_decreases(p: RadarPass) {
    if p.last_pos is Some {
        lemma_next_pass_wf(p);
    }
}

/// The first center of a sweep: the top row's left bound.
pub open spec fn spec_start_pos(fr: i16, rr: i16) -> Pos {
    Pos { x: 0, y: (-(fr - rr)) as i16 }
}

/// The whole sweep for the given radii.
pub open spec fn spec_radar_positions(fr: i16, rr: i16) -> Seq<Pos> {
    seq![spec_start_pos(fr, rr)] + spec_radar_rest(
        RadarPass { last_pos: Some(spec_start_pos(fr, rr)), meta: spec_meta_new(fr, rr) },
    )
}

/// A cache is either empty or holds exactly the sweep of its radii.
pub open spec fn radar_wf(r: Radar) -> bool {
    r.radar_positions@.len() > 0 ==> {
        &&& radii_wf(r.meta.field_radius, r.meta.radar_radius)
        &&& r.meta == spec_meta_new(r.meta.field_radius, r.meta.radar_radius)
        &&& r.radar_positions@ == spec_radar_positions(r.meta.field_radius, r.meta.radar_radius)
        &&& forall|i: int|
            0 <= i < r.radar_positions@.len() ==> pos_near_board(#[trigger] r.radar_positions@[i])
    }
}

impl RadarMeta {
    /// Fresh bookkeeping for a sweep over the given radii.
    pub fn new(field_radius: i16, radar_radius: i16) -> (m: RadarMeta)
        requires
            radii_wf(field_radius, radar_radius),
        ensures
            m == spec_meta_new(field_radius, radar_radius),
    {
        RadarMeta {
            field_radius,
            radar_radius,
            row_start: 0,
            row_end: field_radius - radar_radius,
            row_start_change: -(radar_radius + 1),
            row_end_change: 0,
        }
    }

    /// The bookkeeping for the usual board.
    pub fn with_defaults() -> (m: RadarMeta)
        ensures
            m == spec_meta_new(14, 2),
    {
        RadarMeta::new(14, 2)
    }
}

/// Advances the sweep by one step.
pub fn get_next_position(pass: RadarPass) -> (r: RadarPass)
    requires
        pass_wf(pass),
        pass.last_pos is Some,
    ensures
        r == spec_next_pass(pass),
        pass_wf(r),
        r.last_pos is Some ==> pass_measure(r) < pass_measure(pass),
        r.last_pos is Some ==> pos_near_board(r.last_pos->0),
{
    proof {
        lemma_next_pass_wf(pass);
    }
    let mut pass = pass;
    let last_pos = match pass.last_pos {
        Some(p) => p,
        None => Pos { x: 0, y: 0 },
    };
    if last_pos.x >= pass.meta.row_end {
        pass.meta.row_start = pass.meta.row_start + pass.meta.row_start_change;
        pass.meta.row_end = pass.meta.row_end + pass.meta.row_end_change;
        if pass.meta.row_start <= -pass.meta.field_radius {
            let doubled = 2 * pass.meta.radar_radius;
            let subtract_y = if last_pos.y + doubled > 0 {
                last_pos.y + doubled
            } else {
                0
            };
            pass.meta.row_start = -(pass.meta.field_radius - pass.meta.radar_radius);
            pass.meta.row_start_change = 0;
            pass.meta.row_end_change = -(pass.meta.radar_radius + 1);
            pass.meta.row_end = pass.meta.field_radius - subtract_y - pass.meta.radar_radius;
        }
        if last_pos.y + pass.meta.radar_radius + 1 > pass.meta.field_radius {
            pass.last_pos = None;
            return pass;
        }
        pass.last_pos = Some(
            Pos { x: pass.meta.row_start, y: last_pos.y + (pass.meta.radar_radius + 1) },
        );
        return pass;
    }
    pass.last_pos = Some(Pos { x: last_pos.x + 2 * pass.meta.radar_radius, y: last_pos.y });
    return pass;
}

impl Radar {
    /// An empty cache.
    pub fn new() -> (r: Radar)
        ensures
            radar_wf(r),
            r.radar_positions@.len() == 0,
    {
        Radar { radar_positions: Vec::new(), meta: RadarMeta::with_defaults() }
    }

    /// The sweep for the given configuration, computed once and cached.
    pub fn get_radar_positions(&mut self, config: &Config) -> (res: Vec<Pos>)
        requires
            radar_wf(*old(self)),
            config_wf(*config),
        ensures
            radar_wf(*final(self)),
            res@ == spec_radar_positions(config.field_radius, config.radar),
            final(self).radar_positions@ == res@,
            res@.len() >= 1,
            forall|i: int| 0 <= i < res@.len() ==> pos_near_board(#[trigger] res@[i]),
    {
        if self.meta.field_radius == config.field_radius && self.meta.radar_radius == config.radar
            && self.radar_positions.len() > 0 {
            return copy_pos_vec(&self.radar_positions);
        }
        self.meta = RadarMeta::new(config.field_radius, config.radar);
        let start_pos = Pos { x: self.meta.row_start, y: -(config.field_radius - config.radar) };
        let mut positions: Vec<Pos> = Vec::new();
        positions.push(start_pos);
        let ghost start_pass = RadarPass {
            last_pos: Some(start_pos),
            meta: spec_meta_new(config.field_radius, config.radar),
        };
        let mut pass: RadarPass = RadarPass { last_pos: Some(start_pos), meta: self.meta };
        while pass.last_pos.is_some()
            invariant
                pass_wf(pass),
                pass.last_pos is Some ==> positions@ + spec_radar_rest(pass)
                    == spec_radar_positions(config.field_radius, config.radar),
                pass.last_pos is None ==> positions@ == spec_radar_positions(
                    config.field_radius,
                    config.radar,
                ),
                positions@.len() >= 1,
                forall|i: int| 0 <= i < positions@.len() ==> pos_near_board(#[trigger] positions@[i]),
            decreases pass_measure(pass),
        {
            let ghost before = pass;
            pass = get_next_position(pass);
            match pass.last_pos {
                Some(p) => {
                    positions.push(p);
                    proof {
                        assert(spec_radar_rest(before) == seq![p] + spec_radar_rest(pass));
                        assert(positions@ + spec_radar_rest(pass) =~= spec_radar_positions(
                            config.field_radius,
                            config.radar,
                        ));
                    }
                },
                None => {
                    proof {
                        assert(spec_radar_rest(before) =~= Seq::<Pos>::empty());
                        assert(positions@ =~= spec_radar_positions(
                            config.field_radius,
                            config.radar,
                        ));
                    }
                },
            }
        }
        self.radar_positions = copy_pos_vec(&positions);
        positions
    }
}

} // verus!
