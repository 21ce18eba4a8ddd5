//! A player: its motion around the ring and its jump timers.

use vstd::prelude::*;
use crate::common::{PlayColor, FREQUENCY, LED_COUNT};
use crate::position::{abs, offset, wrap_add, Position};

verus! {

/// Lives every player starts a match with.
pub const LIFE_INIT: usize = 5;

/// Ticks of invulnerability after a jump.
pub const JUMP_DURATION: usize = 4 * FREQUENCY;

/// Ticks after the end of a jump before the next one is allowed.
pub const JUMP_COOLDOWN: usize = 8 * FREQUENCY;

/// Movement intent of a player.
#[derive(Clone, Copy, Debug, PartialEq, Eq, Structural)]
pub enum TurnDir {
    Right,
    Left,
}

/// The cell that a player with intent `turn` at `pos` tries to enter.
pub open spec fn candidate(pos: int, turn: TurnDir) -> int {
    match turn {
        TurnDir::Left => wrap_add(pos, -1),
        TurnDir::Right => wrap_add(pos, 1),
    }
}

/// The spacing that two players with `a` and `b` lives keep between them.
pub open spec fn spacing(a: int, b: int) -> int {
    (a + b) * 3 / 2
}

/// A player on the ring.
#[derive(Clone, Copy, Debug, PartialEq, Eq, Structural)]
pub struct Player {
    pub pos: Position,
    pub turn: Option<TurnDir>,
    pub color: PlayColor,
    pub lifes: usize,
    pub jump: usize,
    pub jump_recover: usize,
}

/// Whether cell `cand` keeps the spacing of a player with `lifes` lives and
/// color `color` from every other living player of `others`.
pub open spec fn keeps_spacing(color: PlayColor, lifes: int, cand: int, others: Seq<Player>) -> bool {
    forall|i: int|
        0 <= i < others.len() && (#[trigger] others[i]).color != color && others[i].lifes > 0
            ==> abs(offset(cand, others[i].pos.0 as int)) >= spacing(others[i].lifes as int, lifes)
}

impl Player {
    pub open spec fn wf(self) -> bool {
        &&& self.pos.wf()
        &&& self.jump <= self.jump_recover
        &&& self.jump_recover <= JUMP_DURATION + JUMP_COOLDOWN
    }

    /// The player after one movement sub-step against the positions `others`.
    pub open spec fn spec_moved(self, others: Seq<Player>) -> Player {
        match self.turn {
            Some(dir) => if keeps_spacing(self.color, self.lifes as int, candidate(self.pos.0 as int, dir), others) {
                Player { pos: Position(candidate(self.pos.0 as int, dir) as usize), ..self }
            } else {
                self
            },
            None => self,
        }
    }

    /// The player after its timers ran for one tick.
    pub open spec fn spec_cooled(self) -> Player {
        Player {
            jump: if self.jump > 0 { (self.jump - 1) as usize } else { 0 },
            jump_recover: if self.jump_recover > 0 { (self.jump_recover - 1) as usize } else { 0 },
            ..self
        }
    }

    /// A player at rest at cell `pos` with `LIFE_INIT` lives and no jump pending.
    pub open spec fn new_spec(pos: int, color: PlayColor) -> Player {
        Player { pos: Position(pos as usize), turn: None, color, lifes: LIFE_INIT, jump: 0, jump_recover: 0 }
    }

    /// A player at rest with no jump pending.
    pub fn new(pos: usize, color: PlayColor, lifes: usize) -> (r: Player)
        requires
            pos < LED_COUNT,
        ensures
            r == (Player { pos: Position(pos), turn: None, color, lifes, jump: 0, jump_recover: 0 }),
    {
        Player { pos: Position(pos), turn: None, color, lifes, jump: 0, jump_recover: 0 }
    }

    /// Sets the movement intent.
    pub fn set_turn(&mut self, dir: Option<TurnDir>)
        ensures
            *final(self) == (Player { turn: dir, ..*old(self) }),
    {
        self.turn = dir;
    }

    /// One movement sub-step: the player enters the next cell in its intended
    /// direction when that cell keeps the spacing from every other living
    /// player of `players`, and stays put otherwise.
    pub fn tick(&mut self, players: &Vec<Player>)
        requires
            old(self).wf(),
            forall|i: int| 0 <= i < players@.len() ==> (#[trigger] players@[i]).pos.wf(),
        ensures
            *final(self) == old(self).spec_moved(players@),
            final(self).wf(),
    {
        if let Some(dir) = self.turn {
            let new_pos = match dir {
                TurnDir::Left => self.pos.add(-1),
                TurnDir::Right => self.pos.add(1),
            };
            let mut ok = true;
            let mut i: usize = 0;
            while i < players.len()
                invariant
                    self.pos.wf(),
                    new_pos.wf(),
                    i <= players.len(),
                    forall|k: int| 0 <= k < players@.len() ==> (#[trigger] players@[k]).pos.wf(),
                    ok == keeps_spacing(self.color, self.lifes as int, new_pos.0 as int, players@.take(i as int)),
                decreases players.len() - i,
            {
                let o = players[i];
                assert(players@.take(i as int + 1) =~= players@.take(i as int).push(o));
                if o.color != self.color && o.lifes > 0 {
                    let d = new_pos.direction(o.pos);
                    let dist: u128 = if d < 0 { (-d) as u128 } else { d as u128 };
                    let need: u128 = ((o.lifes as u128) + (self.lifes as u128)) * 3 / 2;
                    assert(dist as int == abs(d as int));
                    assert(need as int == spacing(o.lifes as int, self.lifes as int));
                    if dist < need {
                        ok = false;
                    }
                }
                proof {
                    let t = players@.take(i as int + 1);
                    if ok {
                        assert forall|j: int|
                            0 <= j < t.len() && (#[trigger] t[j]).color != self.color && t[j].lifes > 0
                            implies abs(offset(new_pos.0 as int, t[j].pos.0 as int)) >= spacing(t[j].lifes as int, self.lifes as int)
                        by {
                            if j < i {
                                assert(t[j] == players@.take(i as int)[j]);
                            }
                        }
                    } else if keeps_spacing(self.color, self.lifes as int, new_pos.0 as int, players@.take(i as int)) {
                        assert(t[i as int] == o);
                    } else {
                        let j = choose|j: int|
                            0 <= j < players@.take(i as int).len() && (#[trigger] players@.take(i as int)[j]).color != self.color
                                && players@.take(i as int)[j].lifes > 0
                                && !(abs(offset(new_pos.0 as int, players@.take(i as int)[j].pos.0 as int))
                                    >= spacing(players@.take(i as int)[j].lifes as int, self.lifes as int));
                        assert(t[j] == players@.take(i as int)[j]);
                    }
                }
                i += 1;
            }
            assert(players@.take(players.len() as int) =~= players@);
            if ok {
                self.pos = new_pos;
            }
        }
    }

    /// Runs the jump timers for one tick, each floored at zero.
    pub fn cool_down(&mut self)
        requires
            old(self).wf(),
        ensures
            *final(self) == old(self).spec_cooled(),
            final(self).wf(),
    {
        if self.jump > 0 {
            self.jump -= 1;
        }
        if self.jump_recover > 0 {
            self.jump_recover -= 1;
        }
    }

    /// Starts a jump when the player has recovered from the last one.
    pub fn jump(&mut self)
        requires
            old(self).wf(),
        ensures
            final(self).wf(),
            old(self).jump_recover == 0 ==> *final(self) == (Player {
                jump: JUMP_DURATION,
                jump_recover: (JUMP_DURATION + JUMP_COOLDOWN) as usize,
                ..*old(self)
            }),
            old(self).jump_recover != 0 ==> *final(self) == *old(self),
    {
        if self.jump_recover == 0 {
            self.jump = JUMP_DURATION;
            self.jump_recover = JUMP_DURATION + JUMP_COOLDOWN;
        }
    }
}


} // verus!
