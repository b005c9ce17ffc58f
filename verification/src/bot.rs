//! One of our bots: identity, vitality and position, mutated in place as
//! events arrive.

use vstd::prelude::*;
use crate::defs::BotDef;
use crate::position::Pos;

verus! {

/// A bot is healthy while its hit points are at or above this threshold.
pub const MIN_HEALTHY_HP: i16 = 4;

/// One bot of our squad: a stable id, vitality, position and hit points.
/// Never destroyed, only marked dead.
#[derive(Debug, Clone, Copy, PartialEq, Eq, Structural)]
pub struct Bot {
    pub id: i16,
    pub alive: bool,
    pub pos: Pos,
    pub hp: i16,
}

impl Bot {
    /// Builds the bot from its match start record, which must carry a
    /// position and hit points.
    pub fn new(def: &BotDef) -> (b: Bot)
        requires
            def.pos is Some,
            def.hp is Some,
        ensures
            b == (Bot { id: def.bot_id, alive: def.alive, pos: def.pos->0, hp: def.hp->0 }),
    {
        let pos = match &def.pos {
            Some(p) => *p,
            None => Pos { x: 0, y: 0 },
        };
        let hp = match def.hp {
            Some(h) => h,
            None => 0,
        };
        Bot { id: def.bot_id, alive: def.alive, pos, hp }
    }

    /// Healthy means hit points at or above the fixed threshold.
    pub fn is_healthy(&self) -> (r: bool)
        ensures
            r == (self.hp >= MIN_HEALTHY_HP),
    {
        self.hp >= MIN_HEALTHY_HP
    }
}

} // verus!
