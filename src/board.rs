//! The simulation of one match: the drops (obstacles and bonuses) and the
//! board that moves players and drops and resolves their collisions.

use vstd::prelude::*;
use crate::common::{PlayColor, FREQUENCY, LED_COUNT};
use crate::player::{Player, TurnDir, JUMP_COOLDOWN, JUMP_DURATION, LIFE_INIT};
use crate::position::{wrap_add, Position};
use crate::display::{bonus_led, marked, players_drawn, white_led, Display, LED};
use crate::platform::SnakeGame;

verus! {

/// Movement sub-steps per tick.
pub const PLAYER_SPEED: usize = 60 / FREQUENCY;

/// Mean number of ticks between two obstacles at the start of a match.
pub const OBSTACLE_INTERVAL: usize = FREQUENCY * 6;

/// The obstacle interval never shrinks below this many ticks.
pub const OBSTACLE_FLOOR: usize = 10;

/// Seconds between two reductions of the obstacle interval.
pub const OBSTACLE_INCREASE_SEC: usize = 10;

/// Mean number of ticks between two bonuses.
pub const BONUS_INTERVAL: usize = FREQUENCY * 10;

/// Relies on `rand::random`: a value drawn from the thread-local generator.
/// Nothing is known of the value.
pub assume_specification<T>[ rand::random::<T> ]() -> (r: T)
    where
        rand::distributions::Standard: rand::distributions::Distribution<T>,
;

/// An obstacle or a bonus travelling around the ring.
#[derive(Clone, Copy, Debug, PartialEq, Eq, Structural)]
pub struct Drop {
    pub init: Position,
    pub counter: i32,
    pub direction: i32,
    pub clear: bool,
}

impl Drop {
    /// A live drop: on the ring, moving one way or the other, with some lifetime left.
    pub open spec fn wf(self) -> bool {
        &&& self.init.wf()
        &&& 0 < self.counter <= LED_COUNT
        &&& (self.direction == 1 || self.direction == -1)
        &&& !self.clear
    }

    /// Fields in range; the lifetime may have run out and the drop may be cleared.
    pub open spec fn inner_wf(self) -> bool {
        &&& self.init.wf()
        &&& 0 <= self.counter <= LED_COUNT
        &&& (self.direction == 1 || self.direction == -1)
    }

    /// The cell the drop occupies: its spawn cell moved by the elapsed ticks
    /// in its direction.
    pub open spec fn spec_pos(self) -> int {
        wrap_add(self.init.0 as int, (LED_COUNT - self.counter) * self.direction)
    }

    /// A fresh drop at `init`, moving towards lower cells when `left` holds.
    pub fn spawn(init: Position, left: bool) -> (r: Drop)
        requires
            init.wf(),
        ensures
            r.wf(),
            r == (Drop {
                init,
                counter: LED_COUNT as i32,
                direction: if left { -1i32 } else { 1i32 },
                clear: false,
            }),
    {
        Drop { init, counter: LED_COUNT as i32, direction: if left { -1 } else { 1 }, clear: false }
    }

    /// A fresh drop at a random cell, moving in a random direction.
    pub fn at_random() -> (r: Drop)
        ensures
            r.wf(),
            r.counter == LED_COUNT,
    {
        let p: usize = rand::random::<usize>();
        let left: bool = rand::random::<bool>();
        Drop::spawn(Position(p % LED_COUNT), left)
    }

    /// The cell the drop occupies.
    pub fn pos(&self) -> (r: Position)
        requires
            self.inner_wf(),
        ensures
            r.wf(),
            r.0 == self.spec_pos(),
    {
        self.init.add((LED_COUNT as i32 - self.counter) * self.direction)
    }

    /// Runs the lifetime for one tick; tells whether the drop is still alive.
    pub fn tick_visible(&mut self) -> (r: bool)
        requires
            old(self).inner_wf(),
        ensures
            final(self).inner_wf(),
            *final(self) == (Drop {
                counter: if old(self).counter > 0 { (old(self).counter - 1) as i32 } else { 0i32 },
                ..*old(self)
            }),
            r == (final(self).counter > 0),
    {
        if self.counter > 0 {
            self.counter -= 1;
        }
        self.counter > 0
    }
}

/// The lives and obstacles after the first `k` obstacles of `ds` met a
/// player with `lifes` lives at cell `pos`: each uncleared obstacle on that
/// cell takes one life and is cleared, as long as a life is left.
pub open spec fn obstacle_pass(lifes: int, pos: int, ds: Seq<Drop>, k: nat) -> (int, Seq<Drop>)
    decreases k,
{
    if k == 0 || k > ds.len() {
        (lifes, ds)
    } else {
        let (l, d) = obstacle_pass(lifes, pos, ds, (k - 1) as nat);
        let o = d[k - 1];
        if !o.clear && o.spec_pos() == pos && l > 0 {
            (l - 1, d.update(k - 1, Drop { clear: true, ..o }))
        } else {
            (l, d)
        }
    }
}

/// The lives and bonuses after the first `k` bonuses of `ds` met a player
/// with `lifes` lives at cell `pos`: each uncleared bonus on that cell gives
/// one life and is cleared.
pub open spec fn bonus_pass(lifes: int, pos: int, ds: Seq<Drop>, k: nat) -> (int, Seq<Drop>)
    decreases k,
{
    if k == 0 || k > ds.len() {
        (lifes, ds)
    } else {
        let (l, d) = bonus_pass(lifes, pos, ds, (k - 1) as nat);
        let b = d[k - 1];
        if !b.clear && b.spec_pos() == pos && l < usize::MAX {
            (l + 1, d.update(k - 1, Drop { clear: true, ..b }))
        } else {
            (l, d)
        }
    }
}

/// One player against all drops; a jumping player or one in `ignore` is left alone.
pub open spec fn collide_one(p: Player, obs: Seq<Drop>, boni: Seq<Drop>, ignore: Seq<PlayColor>) -> (
    Player,
    Seq<Drop>,
    Seq<Drop>,
) {
    if p.jump == 0 && !ignore.contains(p.color) {
        let (l1, o1) = obstacle_pass(p.lifes as int, p.pos.0 as int, obs, obs.len());
        let (l2, b1) = bonus_pass(l1, p.pos.0 as int, boni, boni.len());
        (Player { lifes: l2 as usize, ..p }, o1, b1)
    } else {
        (p, obs, boni)
    }
}

/// The first `k` players of `ps`, in order, against the drops.
pub open spec fn collide_prefix(
    ps: Seq<Player>,
    obs: Seq<Drop>,
    boni: Seq<Drop>,
    ignore: Seq<PlayColor>,
    k: nat,
) -> (Seq<Player>, Seq<Drop>, Seq<Drop>)
    decreases k,
{
    if k == 0 || k > ps.len() {
        (ps, obs, boni)
    } else {
        let (ps1, o1, b1) = collide_prefix(ps, obs, boni, ignore, (k - 1) as nat);
        let (hit, obs2, boni2) = collide_one(ps1[k - 1], o1, b1, ignore);
        (ps1.update(k - 1, hit), obs2, boni2)
    }
}

/// The players with lives left, in order.
pub open spec fn living(ps: Seq<Player>) -> Seq<Player>
    decreases ps.len(),
{
    if ps.len() == 0 {
        ps
    } else if ps.last().lifes > 0 {
        living(ps.drop_last()).push(ps.last())
    } else {
        living(ps.drop_last())
    }
}

/// The drops not cleared, in order.
pub open spec fn remaining(ds: Seq<Drop>) -> Seq<Drop>
    decreases ds.len(),
{
    if ds.len() == 0 {
        ds
    } else if !ds.last().clear {
        remaining(ds.drop_last()).push(ds.last())
    } else {
        remaining(ds.drop_last())
    }
}

/// A collision resolution: every player not in `ignore` against the drops,
/// then the players without lives and the consumed drops leave.
pub open spec fn collision(ps: Seq<Player>, obs: Seq<Drop>, boni: Seq<Drop>, ignore: Seq<PlayColor>) -> (
    Seq<Player>,
    Seq<Drop>,
    Seq<Drop>,
) {
    let (ps1, o1, b1) = collide_prefix(ps, obs, boni, ignore, ps.len());
    (living(ps1), remaining(o1), remaining(b1))
}

/// Whether `c` is among `cs`.
fn has_color(cs: &Vec<PlayColor>, c: PlayColor) -> (r: bool)
    ensures
        r == cs@.contains(c),
{
    let mut i: usize = 0;
    while i < cs.len()
        invariant
            i <= cs.len(),
            forall|k: int| 0 <= k < i ==> cs@[k] != c,
        decreases cs.len() - i,
    {
        if cs[i] == c {
            return true;
        }
        i += 1;
    }
    false
}

/// The drops of `ds` that are not cleared.
fn keep_uncleared(ds: &Vec<Drop>) -> (r: Vec<Drop>)
    ensures
        r@ == remaining(ds@),
{
    let mut r: Vec<Drop> = Vec::new();
    let mut i: usize = 0;
    while i < ds.len()
        invariant
            i <= ds.len(),
            r@ == remaining(ds@.take(i as int)),
        decreases ds.len() - i,
    {
        assert(ds@.take(i as int + 1).drop_last() =~= ds@.take(i as int));
        if !ds[i].clear {
            r.push(ds[i]);
        }
        i += 1;
    }
    assert(ds@.take(ds.len() as int) =~= ds@);
    r
}

/// The players of `ps` with lives left.
fn keep_living(ps: &Vec<Player>) -> (r: Vec<Player>)
    ensures
        r@ == living(ps@),
{
    let mut r: Vec<Player> = Vec::new();
    let mut i: usize = 0;
    while i < ps.len()
        invariant
            i <= ps.len(),
            r@ == living(ps@.take(i as int)),
        decreases ps.len() - i,
    {
        assert(ps@.take(i as int + 1).drop_last() =~= ps@.take(i as int));
        if ps[i].lifes > 0 {
            r.push(ps[i]);
        }
        i += 1;
    }
    assert(ps@.take(ps.len() as int) =~= ps@);
    r
}

pub open spec fn drops_inner_wf(ds: Seq<Drop>) -> bool {
    forall|i: int| 0 <= i < ds.len() ==> (#[trigger] ds[i]).inner_wf()
}

/// The uncleared obstacles of `ds` on cell `pos` each take a life of a
/// player with `lifes` lives, while one is left.
fn obstacle_hits(lifes: usize, pos: Position, ds: &mut Vec<Drop>) -> (r: usize)
    requires
        drops_inner_wf(old(ds)@),
    ensures
        (r as int, final(ds)@) == obstacle_pass(lifes as int, pos.0 as int, old(ds)@, old(ds)@.len()),
        drops_inner_wf(final(ds)@),
{
    let ghost orig = ds@;
    let mut l = lifes;
    let mut i: usize = 0;
    while i < ds.len()
        invariant
            i <= ds.len(),
            ds@.len() == orig.len(),
            drops_inner_wf(ds@),
            (l as int, ds@) == obstacle_pass(lifes as int, pos.0 as int, orig, i as nat),
        decreases ds.len() - i,
    {
        let o = ds[i];
        if !o.clear && o.pos() == pos && l > 0 {
            l -= 1;
            ds.set(i, Drop { clear: true, ..o });
        }
        i += 1;
    }
    l
}

/// The uncleared bonuses of `ds` on cell `pos` each give a life to a player
/// with `lifes` lives.
fn bonus_hits(lifes: usize, pos: Position, ds: &mut Vec<Drop>) -> (r: usize)
    requires
        drops_inner_wf(old(ds)@),
    ensures
        (r as int, final(ds)@) == bonus_pass(lifes as int, pos.0 as int, old(ds)@, old(ds)@.len()),
        drops_inner_wf(final(ds)@),
{
    let ghost orig = ds@;
    let mut l = lifes;
    let mut i: usize = 0;
    while i < ds.len()
        invariant
            i <= ds.len(),
            ds@.len() == orig.len(),
            drops_inner_wf(ds@),
            (l as int, ds@) == bonus_pass(lifes as int, pos.0 as int, orig, i as nat),
        decreases ds.len() - i,
    {
        let b = ds[i];
        if !b.clear && b.pos() == pos && l < usize::MAX {
            l += 1;
            ds.set(i, Drop { clear: true, ..b });
        }
        i += 1;
    }
    l
}


/// `b` holds the drops of `a`, in order, with only their cleared flags changed.
pub open spec fn same_drops(a: Seq<Drop>, b: Seq<Drop>) -> bool {
    &&& a.len() == b.len()
    &&& forall|i: int|
        0 <= i < a.len() ==> (#[trigger] b[i]) == (Drop { clear: b[i].clear, ..a[i] })
}

/// `b` holds the players of `a`, in order, with only their lives changed.
pub open spec fn same_players(a: Seq<Player>, b: Seq<Player>) -> bool {
    &&& a.len() == b.len()
    &&& forall|i: int|
        0 <= i < a.len() ==> (#[trigger] b[i]) == (Player { lifes: b[i].lifes, ..a[i] })
}

proof fn lemma_obstacle_pass(lifes: int, pos: int, ds: Seq<Drop>, k: nat)
    requires
        lifes >= 0,
    ensures
        same_drops(ds, obstacle_pass(lifes, pos, ds, k).1),
        0 <= obstacle_pass(lifes, pos, ds, k).0 <= lifes,
    decreases k,
{
    if k == 0 || k > ds.len() {
    } else {
        lemma_obstacle_pass(lifes, pos, ds, (k - 1) as nat);
    }
}

proof fn lemma_bonus_pass(lifes: int, pos: int, ds: Seq<Drop>, k: nat)
    requires
        lifes <= usize::MAX,
    ensures
        same_drops(ds, bonus_pass(lifes, pos, ds, k).1),
        lifes <= bonus_pass(lifes, pos, ds, k).0 <= usize::MAX,
    decreases k,
{
    if k == 0 || k > ds.len() {
    } else {
        lemma_bonus_pass(lifes, pos, ds, (k - 1) as nat);
    }
}

proof fn lemma_collide_prefix(
    ps: Seq<Player>,
    obs: Seq<Drop>,
    boni: Seq<Drop>,
    ignore: Seq<PlayColor>,
    k: nat,
)
    ensures
        same_players(ps, collide_prefix(ps, obs, boni, ignore, k).0),
        same_drops(obs, collide_prefix(ps, obs, boni, ignore, k).1),
        same_drops(boni, collide_prefix(ps, obs, boni, ignore, k).2),
    decreases k,
{
    if k == 0 || k > ps.len() {
    } else {
        lemma_collide_prefix(ps, obs, boni, ignore, (k - 1) as nat);
        let (ps1, o1, b1) = collide_prefix(ps, obs, boni, ignore, (k - 1) as nat);
        let p = ps1[k - 1];
        lemma_obstacle_pass(p.lifes as int, p.pos.0 as int, o1, o1.len());
        let l1 = obstacle_pass(p.lifes as int, p.pos.0 as int, o1, o1.len()).0;
        lemma_bonus_pass(l1, p.pos.0 as int, b1, b1.len());
    }
}

proof fn lemma_living(ps: Seq<Player>)
    ensures
        forall|x: Player| #[trigger] living(ps).contains(x) ==> ps.contains(x) && x.lifes > 0,
    decreases ps.len(),
{
    if ps.len() > 0 {
        lemma_living(ps.drop_last());
        assert forall|x: Player| #[trigger] living(ps).contains(x) implies ps.contains(x) && x.lifes > 0 by {
            let l = living(ps.drop_last());
            if ps.last().lifes > 0 && x != ps.last() {
                let j = choose|j: int| 0 <= j < l.push(ps.last()).len() && l.push(ps.last())[j] == x;
                assert(l.contains(x)) by { assert(l[j] == x); }
                let m = choose|m: int| 0 <= m < ps.drop_last().len() && ps.drop_last()[m] == x;
                assert(ps[m] == x);
            } else if ps.last().lifes > 0 {
                assert(ps[ps.len() - 1] == x);
            } else {
                let m = choose|m: int| 0 <= m < ps.drop_last().len() && ps.drop_last()[m] == x;
                assert(ps[m] == x);
            }
        }
    }
}

/// No two players of `ps` share a color.
pub open spec fn colors_unique(ps: Seq<Player>) -> bool {
    forall|i: int, j: int| 0 <= i < j < ps.len() ==> (#[trigger] ps[i]).color != (#[trigger] ps[j]).color
}

proof fn lemma_living_unique(ps: Seq<Player>)
    requires
        colors_unique(ps),
    ensures
        colors_unique(living(ps)),
    decreases ps.len(),
{
    if ps.len() > 0 {
        let d = ps.drop_last();
        assert(colors_unique(d)) by {
            assert forall|i: int, j: int| 0 <= i < j < d.len() implies (#[trigger] d[i]).color != (#[trigger] d[j]).color by {
                assert(d[i] == ps[i] && d[j] == ps[j]);
            }
        }
        lemma_living_unique(d);
        lemma_living(d);
        if ps.last().lifes > 0 {
            let l = living(d);
            let n = l.push(ps.last());
            assert forall|i: int, j: int| 0 <= i < j < n.len() implies (#[trigger] n[i]).color != (#[trigger] n[j]).color by {
                if j == l.len() {
                    assert(l.contains(n[i]));
                    let m = choose|m: int| 0 <= m < d.len() && d[m] == n[i];
                    assert(ps[m] == d[m]);
                    assert(ps[ps.len() - 1] == n[j]);
                } else {
                    assert(n[i] == l[i] && n[j] == l[j]);
                }
            }
        }
    }
}

proof fn lemma_remaining(ds: Seq<Drop>)
    ensures
        forall|x: Drop| #[trigger] remaining(ds).contains(x) ==> ds.contains(x) && !x.clear,
    decreases ds.len(),
{
    if ds.len() > 0 {
        lemma_remaining(ds.drop_last());
        assert forall|x: Drop| #[trigger] remaining(ds).contains(x) implies ds.contains(x) && !x.clear by {
            let l = remaining(ds.drop_last());
            if !ds.last().clear && x != ds.last() {
                let j = choose|j: int| 0 <= j < l.push(ds.last()).len() && l.push(ds.last())[j] == x;
                assert(l.contains(x)) by { assert(l[j] == x); }
                let m = choose|m: int| 0 <= m < ds.drop_last().len() && ds.drop_last()[m] == x;
                assert(ds[m] == x);
            } else if !ds.last().clear {
                assert(ds[ds.len() - 1] == x);
            } else {
                let m = choose|m: int| 0 <= m < ds.drop_last().len() && ds.drop_last()[m] == x;
                assert(ds[m] == x);
            }
        }
    }
}

/// The drops that stay after a collision resolution are live ones.
proof fn lemma_remaining_wf(orig: Seq<Drop>, ds: Seq<Drop>)
    requires
        forall|i: int| 0 <= i < orig.len() ==> (#[trigger] orig[i]).wf(),
        same_drops(orig, ds),
    ensures
        forall|i: int| 0 <= i < remaining(ds).len() ==> (#[trigger] remaining(ds)[i]).wf(),
{
    lemma_remaining(ds);
    assert forall|i: int| 0 <= i < remaining(ds).len() implies (#[trigger] remaining(ds)[i]).wf() by {
        let x = remaining(ds)[i];
        assert(remaining(ds).contains(x));
        let m = choose|m: int| 0 <= m < ds.len() && ds[m] == x;
        assert(orig[m].wf());
    }
}

/// The players of one match and the drops on the ring.
#[derive(Debug)]
pub struct Board {
    pub players: Vec<Player>,
    pub obstacles: Vec<Drop>,
    pub boni: Vec<Drop>,
    /// Mean number of ticks between two obstacles.
    pub obstacle: usize,
}

/// Every player of `ps` is on the ring, alive, and alone with its color.
pub open spec fn players_wf(ps: Seq<Player>) -> bool {
    &&& forall|i: int| 0 <= i < ps.len() ==> (#[trigger] ps[i]).wf() && ps[i].lifes > 0
    &&& colors_unique(ps)
}

pub open spec fn drops_wf(ds: Seq<Drop>) -> bool {
    forall|i: int| 0 <= i < ds.len() ==> (#[trigger] ds[i]).wf()
}

/// The players `ps` after the player of color `c` took the movement intent `d`.
pub open spec fn turned(ps: Seq<Player>, c: PlayColor, d: Option<TurnDir>) -> Seq<Player> {
    Seq::new(ps.len(), |i: int| if ps[i].color == c { Player { turn: d, ..ps[i] } } else { ps[i] })
}

/// The players `ps` after the player of color `c` asked to jump: it jumps
/// when it has recovered from its last jump.
pub open spec fn clicked(ps: Seq<Player>, c: PlayColor) -> Seq<Player> {
    Seq::new(
        ps.len(),
        |i: int|
            if ps[i].color == c && ps[i].jump_recover == 0 {
                Player { jump: JUMP_DURATION, jump_recover: (JUMP_DURATION + JUMP_COOLDOWN) as usize, ..ps[i] }
            } else {
                ps[i]
            },
    )
}

/// The cell of player `i` of `n` at the start of a match.
pub open spec fn start_cell(i: int, n: int) -> int {
    i * (LED_COUNT as int) / n
}

impl Board {
    pub open spec fn wf(self) -> bool {
        &&& players_wf(self.players@)
        &&& drops_wf(self.obstacles@)
        &&& drops_wf(self.boni@)
        &&& self.obstacle >= OBSTACLE_FLOOR
    }

    /// A board with one player per color, spread evenly around the ring in
    /// the given order, each with `LIFE_INIT` lives; no drops yet.
    pub fn new(player_colors: Vec<PlayColor>) -> (r: Board)
        requires
            forall|i: int, j: int|
                0 <= i < j < player_colors@.len() ==> player_colors@[i] != player_colors@[j],
        ensures
            r.wf(),
            r.players@.len() == player_colors@.len(),
            forall|i: int| 0 <= i < r.players@.len() ==> #[trigger] r.players@[i] == Player::new_spec(
                start_cell(i, player_colors@.len() as int),
                player_colors@[i],
            ),
            r.obstacles@.len() == 0,
            r.boni@.len() == 0,
            r.obstacle == OBSTACLE_INTERVAL,
    {
        let n = player_colors.len();
        let mut players: Vec<Player> = Vec::new();
        let mut i: usize = 0;
        while i < n
            invariant
                n == player_colors@.len(),
                i <= n,
                players@.len() == i,
                forall|k: int| 0 <= k < i ==> #[trigger] players@[k] == Player::new_spec(
                    start_cell(k, n as int),
                    player_colors@[k],
                ),
            decreases n - i,
        {
            let q: u128 = (i as u128) * (LED_COUNT as u128) / (n as u128);
            assert(q < LED_COUNT) by (nonlinear_arith)
                requires
                    q == (i as int) * (LED_COUNT as int) / (n as int),
                    i < n,
            ;
            let pos = q as usize;
            players.push(Player::new(pos, player_colors[i], LIFE_INIT));
            i += 1;
        }
        let r = Board { players, obstacles: Vec::new(), boni: Vec::new(), obstacle: OBSTACLE_INTERVAL };
        assert forall|k: int| 0 <= k < r.players@.len() implies (#[trigger] r.players@[k]).wf() && r.players@[k].lifes > 0 by {
            assert(start_cell(k, n as int) < LED_COUNT) by (nonlinear_arith)
                requires
                    0 <= k < n,
                    start_cell(k, n as int) == k * (LED_COUNT as int) / (n as int),
            ;
            assert(start_cell(k, n as int) >= 0) by (nonlinear_arith)
                requires
                    0 <= k < n,
                    start_cell(k, n as int) == k * (LED_COUNT as int) / (n as int),
            ;
        }
        r
    }

    /// The index of the player of color `c`, if one is on the board.
    fn find(&self, c: PlayColor) -> (r: Option<usize>)
        ensures
            match r {
                Some(i) => i < self.players@.len() && self.players@[i as int].color == c,
                None => forall|i: int| 0 <= i < self.players@.len() ==> (#[trigger] self.players@[i]).color != c,
            },
    {
        let mut i: usize = 0;
        while i < self.players.len()
            invariant
                i <= self.players.len(),
                forall|k: int| 0 <= k < i ==> (#[trigger] self.players@[k]).color != c,
            decreases self.players.len() - i,
        {
            if self.players[i].color == c {
                return Some(i);
            }
            i += 1;
        }
        None
    }

    /// Sets the movement intent of the player of color `c`; ignored when no
    /// such player is on the board.
    pub fn player_turn(&mut self, c: PlayColor, d: Option<TurnDir>)
        requires
            old(self).wf(),
        ensures
            final(self).wf(),
            final(self).obstacles@ == old(self).obstacles@,
            final(self).boni@ == old(self).boni@,
            final(self).obstacle == old(self).obstacle,
            final(self).players@ == turned(old(self).players@, c, d),
    {
        if let Some(i) = self.find(c) {
            let mut p = self.players[i];
            p.set_turn(d);
            self.players.set(i, p);
            proof {
                assert forall|k: int| 0 <= k < self.players@.len() && k != i implies #[trigger] self.players@[k].color != c by {
                    assert(old(self).players@[i as int].color != old(self).players@[k].color);
                }
                assert(players_wf(self.players@)) by {
                    assert forall|a: int, b: int| 0 <= a < b < self.players@.len() implies (#[trigger] self.players@[a]).color != (#[trigger] self.players@[b]).color by {
                        assert(old(self).players@[a].color != old(self).players@[b].color);
                    }
                }
            }
        }
        assert(self.players@ =~= turned(old(self).players@, c, d));
    }

    /// Makes the player of color `c` jump when it has recovered from its last
    /// jump; ignored when no such player is on the board.
    pub fn player_click(&mut self, c: PlayColor)
        requires
            old(self).wf(),
        ensures
            final(self).wf(),
            final(self).obstacles@ == old(self).obstacles@,
            final(self).boni@ == old(self).boni@,
            final(self).obstacle == old(self).obstacle,
            final(self).players@ == clicked(old(self).players@, c),
    {
        if let Some(i) = self.find(c) {
            let mut p = self.players[i];
            assert(p.wf());
            p.jump();
            self.players.set(i, p);
            proof {
                assert forall|k: int| 0 <= k < self.players@.len() && k != i implies #[trigger] self.players@[k].color != c by {
                    assert(old(self).players@[i as int].color != old(self).players@[k].color);
                }
                assert(players_wf(self.players@)) by {
                    assert forall|a: int, b: int| 0 <= a < b < self.players@.len() implies (#[trigger] self.players@[a]).color != (#[trigger] self.players@[b]).color by {
                        assert(old(self).players@[a].color != old(self).players@[b].color);
                    }
                }
            }
        }
        assert(self.players@ =~= clicked(old(self).players@, c));
    }

    /// Resolves collisions: every player on the board that does not jump and
    /// is not in `players_ignore` loses a life for each uncleared obstacle on
    /// its cell (while it has one) and gains one for each uncleared bonus on
    /// its cell; the drops so consumed and the players without lives leave.
    pub fn check_collision(&mut self, players_ignore: &Vec<PlayColor>)
        requires
            players_wf(old(self).players@),
            drops_wf(old(self).obstacles@),
            drops_wf(old(self).boni@),
        ensures
            (final(self).players@, final(self).obstacles@, final(self).boni@) == collision(
                old(self).players@,
                old(self).obstacles@,
                old(self).boni@,
                players_ignore@,
            ),
            players_wf(final(self).players@),
            drops_wf(final(self).obstacles@),
            drops_wf(final(self).boni@),
            final(self).obstacle == old(self).obstacle,
    {
        let ghost ps0 = self.players@;
        let ghost o0 = self.obstacles@;
        let ghost b0 = self.boni@;
        let mut i: usize = 0;
        while i < self.players.len()
            invariant
                i <= self.players.len(),
                self.obstacle == old(self).obstacle,
                self.players@.len() == ps0.len(),
                (self.players@, self.obstacles@, self.boni@) == collide_prefix(ps0, o0, b0, players_ignore@, i as nat),
                drops_inner_wf(self.obstacles@),
                drops_inner_wf(self.boni@),
            decreases self.players.len() - i,
        {
            let mut p = self.players[i];
            if p.jump == 0 && !has_color(players_ignore, p.color) {
                let l1 = obstacle_hits(p.lifes, p.pos, &mut self.obstacles);
                let l2 = bonus_hits(l1, p.pos, &mut self.boni);
                p.lifes = l2;
                self.players.set(i, p);
            }
            i += 1;
        }
        proof {
            lemma_collide_prefix(ps0, o0, b0, players_ignore@, ps0.len());
            lemma_remaining_wf(o0, self.obstacles@);
            lemma_remaining_wf(b0, self.boni@);
            let ps1 = self.players@;
            assert(colors_unique(ps1)) by {
                assert forall|a: int, b: int| 0 <= a < b < ps1.len() implies (#[trigger] ps1[a]).color != (#[trigger] ps1[b]).color by {
                    assert(ps0[a].color != ps0[b].color);
                }
            }
            lemma_living_unique(ps1);
            lemma_living(ps1);
            assert forall|k: int| 0 <= k < living(ps1).len() implies (#[trigger] living(ps1)[k]).wf() && living(ps1)[k].lifes > 0 by {
                let x = living(ps1)[k];
                assert(living(ps1).contains(x));
                let m = choose|m: int| 0 <= m < ps1.len() && ps1[m] == x;
                assert(ps0[m].wf());
            }
        }
        self.players = keep_living(&self.players);
        self.obstacles = keep_uncleared(&self.obstacles);
        self.boni = keep_uncleared(&self.boni);
    }
}


/// Drops after their lifetimes ran for one tick; those whose lifetime ran out leave.
pub open spec fn aged(ds: Seq<Drop>) -> Seq<Drop>
    decreases ds.len(),
{
    if ds.len() == 0 {
        ds
    } else {
        let d = ds.last();
        let a = Drop { counter: if d.counter > 0 { (d.counter - 1) as i32 } else { 0i32 }, ..d };
        if a.counter > 0 {
            aged(ds.drop_last()).push(a)
        } else {
            aged(ds.drop_last())
        }
    }
}

/// Every player after one movement sub-step against the same snapshot `ps`.
pub open spec fn moved_all(ps: Seq<Player>) -> Seq<Player> {
    Seq::new(ps.len(), |i: int| ps[i].spec_moved(ps))
}

/// The colors of the players whose cell is the same in `before` and `after`.
pub open spec fn unmoved(before: Seq<Player>, after: Seq<Player>) -> Seq<PlayColor>
    decreases after.len(),
{
    if after.len() == 0 {
        Seq::empty()
    } else {
        let k = after.len() - 1;
        let rest = unmoved(before, after.drop_last());
        if after[k].pos == before[k].pos {
            rest.push(after[k].color)
        } else {
            rest
        }
    }
}

/// One movement sub-step followed by a collision resolution that skips the
/// players that did not move.
pub open spec fn substep(st: (Seq<Player>, Seq<Drop>, Seq<Drop>)) -> (Seq<Player>, Seq<Drop>, Seq<Drop>) {
    let m = moved_all(st.0);
    collision(m, st.1, st.2, unmoved(st.0, m))
}

/// `k` sub-steps in a row.
pub open spec fn substeps(st: (Seq<Player>, Seq<Drop>, Seq<Drop>), k: nat) -> (
    Seq<Player>,
    Seq<Drop>,
    Seq<Drop>,
)
    decreases k,
{
    if k == 0 {
        st
    } else {
        substep(substeps(st, (k - 1) as nat))
    }
}

/// Every player after its jump timers ran for one tick.
pub open spec fn cooled_all(ps: Seq<Player>) -> Seq<Player> {
    Seq::new(ps.len(), |i: int| ps[i].spec_cooled())
}

/// The obstacle interval for the tick at display counter `counter`: every
/// `OBSTACLE_INCREASE_SEC` seconds, while above `OBSTACLE_FLOOR`, it shrinks
/// to two thirds, but never below the floor.
pub open spec fn next_interval(obstacle: int, counter: int) -> int {
    if counter % ((FREQUENCY * OBSTACLE_INCREASE_SEC) as int) == 0 && obstacle > OBSTACLE_FLOOR {
        if obstacle * 2 / 3 > OBSTACLE_FLOOR {
            obstacle * 2 / 3
        } else {
            OBSTACLE_FLOOR as int
        }
    } else {
        obstacle
    }
}

/// The obstacle interval only shrinks, by two thirds (rounded down) at each
/// step of `OBSTACLE_INCREASE_SEC` seconds, and never below `OBSTACLE_FLOOR`.
pub proof fn lemma_interval_shrinks_to_floor(obstacle: int, counter: int)
    requires
        obstacle >= OBSTACLE_FLOOR,
    ensures
        OBSTACLE_FLOOR <= next_interval(obstacle, counter) <= obstacle,
        counter % ((FREQUENCY * OBSTACLE_INCREASE_SEC) as int) == 0 && obstacle * 2 / 3 >= OBSTACLE_FLOOR
            ==> next_interval(obstacle, counter) == obstacle * 2 / 3,
        counter % ((FREQUENCY * OBSTACLE_INCREASE_SEC) as int) != 0 ==> next_interval(obstacle, counter) == obstacle,
{
}

/// `ds` with `d` added when `roll` hits one chance in `interval`.
pub open spec fn spawned(ds: Seq<Drop>, roll: u64, interval: int, d: Drop) -> Seq<Drop> {
    if roll as int % interval == 0 {
        ds.push(d)
    } else {
        ds
    }
}

/// The cells of the drops `ds`.
pub open spec fn drop_cells(ds: Seq<Drop>) -> Seq<Position> {
    Seq::new(ds.len(), |k: int| Position(ds[k].spec_pos() as usize))
}

/// The colors of the players `ps`, in order.
pub open spec fn colors(ps: Seq<Player>) -> Seq<PlayColor> {
    Seq::new(ps.len(), |k: int| ps[k].color)
}

/// The obstacles and bonuses of board `b` at the end of the movement phase
/// of a tick, before anything spawns.
pub open spec fn moved_drops(b: Board) -> (Seq<Drop>, Seq<Drop>) {
    let st = substeps(
        collision(b.players@, aged(b.obstacles@), aged(b.boni@), Seq::empty()),
        PLAYER_SPEED as nat,
    );
    (st.1, st.2)
}

/// `after` is `before`, possibly with one fresh drop (full lifetime, not
/// cleared) added at the end.
pub open spec fn grown_by_fresh(before: Seq<Drop>, after: Seq<Drop>) -> bool {
    &&& before.is_prefix_of(after)
    &&& after.len() <= before.len() + 1
    &&& after.len() == before.len() + 1 ==> after.last().wf() && after.last().counter == LED_COUNT
}

/// The players of board `b` after one tick: drops aged, a collision
/// resolution, `PLAYER_SPEED` sub-steps, timers run.
pub open spec fn ticked_players(b: Board) -> Seq<Player> {
    cooled_all(
        substeps(
            collision(b.players@, aged(b.obstacles@), aged(b.boni@), Seq::empty()),
            PLAYER_SPEED as nat,
        ).0,
    )
}

/// The ring `leds` after the players, then the obstacles, then the bonuses
/// were painted into it.
pub open spec fn rendered(leds: Seq<LED>, ps: Seq<Player>, obs: Seq<Drop>, boni: Seq<Drop>, counter: int) -> Seq<LED> {
    Seq::new(
        leds.len(),
        |j: int|
            if marked(drop_cells(boni), j) {
                bonus_led()
            } else if marked(drop_cells(obs), j) {
                white_led()
            } else {
                players_drawn(leds, ps, counter)[j]
            },
    )
}

/// The phase a board reports for its players `ps`.
pub open spec fn reports(r: SnakeGame, ps: Seq<Player>) -> bool {
    match r {
        SnakeGame::Play(v) => ps.len() > 1 && v@ == colors(ps),
        SnakeGame::Winner(c) => ps.len() == 1 && c == ps[0].color,
        SnakeGame::Draw => ps.len() == 0,
        _ => false,
    }
}

/// A copy of `v`.
fn copy_players(v: &Vec<Player>) -> (r: Vec<Player>)
    ensures
        r@ == v@,
{
    let mut r: Vec<Player> = Vec::new();
    let mut i: usize = 0;
    while i < v.len()
        invariant
            i <= v.len(),
            r@ == v@.take(i as int),
        decreases v.len() - i,
    {
        r.push(v[i]);
        assert(r@ =~= v@.take(i as int + 1));
        i += 1;
    }
    assert(v@.take(v.len() as int) =~= v@);
    r
}

/// The drops of `ds` after one tick of their lifetimes.
fn age_drops(ds: &Vec<Drop>) -> (r: Vec<Drop>)
    requires
        drops_wf(ds@),
    ensures
        r@ == aged(ds@),
        drops_wf(r@),
{
    let mut r: Vec<Drop> = Vec::new();
    let mut i: usize = 0;
    while i < ds.len()
        invariant
            i <= ds.len(),
            drops_wf(ds@),
            drops_wf(r@),
            r@ == aged(ds@.take(i as int)),
        decreases ds.len() - i,
    {
        let mut d = ds[i];
        assert(ds@.take(i as int + 1).drop_last() =~= ds@.take(i as int));
        assert(ds@.take(i as int + 1).last() == d);
        if d.tick_visible() {
            r.push(d);
        }
        i += 1;
    }
    assert(ds@.take(ds.len() as int) =~= ds@);
    r
}

impl Board {
    /// One movement sub-step of every player against the positions at its
    /// start, then a collision resolution that skips the players that did not
    /// move.
    fn substep(&mut self)
        requires
            players_wf(old(self).players@),
            drops_wf(old(self).obstacles@),
            drops_wf(old(self).boni@),
        ensures
            (final(self).players@, final(self).obstacles@, final(self).boni@) == substep(
                (old(self).players@, old(self).obstacles@, old(self).boni@),
            ),
            players_wf(final(self).players@),
            drops_wf(final(self).obstacles@),
            drops_wf(final(self).boni@),
            final(self).obstacle == old(self).obstacle,
    {
        let snapshot = copy_players(&self.players);
        let ghost ps0 = self.players@;
        let mut ignore: Vec<PlayColor> = Vec::new();
        let mut i: usize = 0;
        while i < self.players.len()
            invariant
                i <= self.players.len(),
                snapshot@ == ps0,
                players_wf(ps0),
                self.players@.len() == ps0.len(),
                self.obstacles@ == old(self).obstacles@,
                self.boni@ == old(self).boni@,
                self.obstacle == old(self).obstacle,
                forall|k: int| 0 <= k < i ==> #[trigger] self.players@[k] == ps0[k].spec_moved(ps0),
                forall|k: int| i <= k < ps0.len() ==> #[trigger] self.players@[k] == ps0[k],
                ignore@ == unmoved(ps0, moved_all(ps0).take(i as int)),
            decreases self.players.len() - i,
        {
            let mut p = self.players[i];
            let orig = p.pos;
            assert(p.wf());
            p.tick(&snapshot);
            self.players.set(i, p);
            assert(moved_all(ps0).take(i as int + 1).drop_last() =~= moved_all(ps0).take(i as int));
            if p.pos == orig {
                ignore.push(p.color);
            }
            i += 1;
        }
        proof {
            assert(self.players@ =~= moved_all(ps0));
            assert(moved_all(ps0).take(ps0.len() as int) =~= moved_all(ps0));
            let m = self.players@;
            assert forall|a: int, b: int| 0 <= a < b < m.len() implies (#[trigger] m[a]).color != (#[trigger] m[b]).color by {
                assert(ps0[a].color != ps0[b].color);
            }
            assert forall|k: int| 0 <= k < m.len() implies (#[trigger] m[k]).wf() && m[k].lifes > 0 by {
                assert(ps0[k].wf());
            }
        }
        self.check_collision(&ignore);
    }

    /// Runs the jump timers of every player for one tick.
    fn cool_down(&mut self)
        requires
            players_wf(old(self).players@),
        ensures
            final(self).players@ == cooled_all(old(self).players@),
            players_wf(final(self).players@),
            final(self).obstacles@ == old(self).obstacles@,
            final(self).boni@ == old(self).boni@,
            final(self).obstacle == old(self).obstacle,
    {
        let ghost ps0 = self.players@;
        let mut i: usize = 0;
        while i < self.players.len()
            invariant
                i <= self.players.len(),
                players_wf(ps0),
                self.players@.len() == ps0.len(),
                self.obstacles@ == old(self).obstacles@,
                self.boni@ == old(self).boni@,
                self.obstacle == old(self).obstacle,
                ps0 == old(self).players@,
                forall|k: int| 0 <= k < i ==> #[trigger] self.players@[k] == ps0[k].spec_cooled(),
                forall|k: int| i <= k < ps0.len() ==> #[trigger] self.players@[k] == ps0[k],
            decreases self.players.len() - i,
        {
            let mut p = self.players[i];
            assert(p.wf());
            p.cool_down();
            self.players.set(i, p);
            i += 1;
        }
        proof {
            assert(self.players@ =~= cooled_all(ps0));
            let m = self.players@;
            assert forall|a: int, b: int| 0 <= a < b < m.len() implies (#[trigger] m[a]).color != (#[trigger] m[b]).color by {
                assert(ps0[a].color != ps0[b].color);
            }
            assert forall|k: int| 0 <= k < m.len() implies (#[trigger] m[k]).wf() && m[k].lifes > 0 by {
                assert(ps0[k].wf());
            }
        }
    }

    /// The cells of the drops `ds`.
    fn cells(ds: &Vec<Drop>) -> (r: Vec<Position>)
        requires
            drops_wf(ds@),
        ensures
            r@ == drop_cells(ds@),
            forall|k: int| 0 <= k < r@.len() ==> (#[trigger] r@[k]).wf(),
    {
        let mut r: Vec<Position> = Vec::new();
        let mut i: usize = 0;
        while i < ds.len()
            invariant
                i <= ds.len(),
                drops_wf(ds@),
                r@ == drop_cells(ds@).take(i as int),
                forall|k: int| 0 <= k < r@.len() ==> (#[trigger] r@[k]).wf(),
            decreases ds.len() - i,
        {
            assert(ds@[i as int].wf());
            r.push(ds[i].pos());
            assert(r@ =~= drop_cells(ds@).take(i as int + 1));
            i += 1;
        }
        assert(drop_cells(ds@).take(ds.len() as int) =~= drop_cells(ds@));
        r
    }

    /// One tick of the match, with the chance draws given: the drops age,
    /// collisions are resolved, the players take `PLAYER_SPEED` movement
    /// sub-steps (each followed by a collision resolution for the players
    /// that moved), their jump timers run, the obstacle interval shrinks
    /// every `OBSTACLE_INCREASE_SEC` seconds of display time, `obstacle`
    /// joins when `obstacle_roll` hits one chance in the interval and
    /// `bonus` when `bonus_roll` hits one chance in `BONUS_INTERVAL`. The
    /// players and the drops are painted onto the display, and the phase
    /// that the remaining players make is returned.
    pub fn tick_with(
        &mut self,
        display: &mut Display,
        obstacle_roll: u64,
        bonus_roll: u64,
        obstacle: Drop,
        bonus: Drop,
    ) -> (r: SnakeGame)
        requires
            old(self).wf(),
            old(display).wf(),
            obstacle.wf(),
            bonus.wf(),
        ensures
            final(self).wf(),
            final(display).wf(),
            final(display).counter == old(display).counter,
            ({
                let st = substeps(
                    collision(old(self).players@, aged(old(self).obstacles@), aged(old(self).boni@), Seq::empty()),
                    PLAYER_SPEED as nat,
                );
                &&& final(self).players@ == cooled_all(st.0)
                &&& final(self).obstacle == next_interval(old(self).obstacle as int, old(display).counter as int)
                &&& final(self).obstacles@ == spawned(st.1, obstacle_roll, final(self).obstacle as int, obstacle)
                &&& final(self).boni@ == spawned(st.2, bonus_roll, BONUS_INTERVAL as int, bonus)
            }),
            final(display).leds@ == rendered(
                old(display).leds@,
                final(self).players@,
                final(self).obstacles@,
                final(self).boni@,
                old(display).counter as int,
            ),
            reports(r, final(self).players@),
    {
        self.obstacles = age_drops(&self.obstacles);
        self.boni = age_drops(&self.boni);
        let no_one: Vec<PlayColor> = Vec::new();
        assert(no_one@ =~= Seq::<PlayColor>::empty());
        self.check_collision(&no_one);
        let ghost st0 = (self.players@, self.obstacles@, self.boni@);
        let mut k: usize = 0;
        while k < PLAYER_SPEED
            invariant
                k <= PLAYER_SPEED,
                players_wf(self.players@),
                drops_wf(self.obstacles@),
                drops_wf(self.boni@),
                self.obstacle == old(self).obstacle,
                self.obstacle >= OBSTACLE_FLOOR,
                (self.players@, self.obstacles@, self.boni@) == substeps(st0, k as nat),
            decreases PLAYER_SPEED - k,
        {
            self.substep();
            k += 1;
        }
        self.cool_down();
        if display.counter % (FREQUENCY * OBSTACLE_INCREASE_SEC) == 0 && self.obstacle > OBSTACLE_FLOOR {
            let shrunk = self.obstacle / 3 * 2 + self.obstacle % 3 * 2 / 3;
            assert(shrunk == self.obstacle * 2 / 3);
            self.obstacle = if shrunk > OBSTACLE_FLOOR { shrunk } else { OBSTACLE_FLOOR };
        }
        if obstacle_roll % (self.obstacle as u64) == 0 {
            self.obstacles.push(obstacle);
        }
        if bonus_roll % (BONUS_INTERVAL as u64) == 0 {
            self.boni.push(bonus);
        }
        let shown = copy_players(&self.players);
        display.draw_players(shown);
        let ghost after_players = display.leds@;
        let obstacle_cells = Self::cells(&self.obstacles);
        display.draw_obstacles(obstacle_cells);
        let bonus_cells = Self::cells(&self.boni);
        display.draw_boni(bonus_cells);
        assert(display.leds@ =~= rendered(
            old(display).leds@,
            self.players@,
            self.obstacles@,
            self.boni@,
            old(display).counter as int,
        ));
        let n = self.players.len();
        if n > 1 {
            let mut cs: Vec<PlayColor> = Vec::new();
            let mut i: usize = 0;
            while i < n
                invariant
                    n == self.players@.len(),
                    i <= n,
                    cs@ == colors(self.players@).take(i as int),
                decreases n - i,
            {
                cs.push(self.players[i].color);
                assert(cs@ =~= colors(self.players@).take(i as int + 1));
                i += 1;
            }
            assert(colors(self.players@).take(n as int) =~= colors(self.players@));
            SnakeGame::Play(cs)
        } else if n == 1 {
            SnakeGame::Winner(self.players[0].color)
        } else {
            SnakeGame::Draw
        }
    }

    /// One tick of the match with fresh chance draws (see `tick_with`).
    pub fn tick(&mut self, display: &mut Display) -> (r: SnakeGame)
        requires
            old(self).wf(),
            old(display).wf(),
        ensures
            final(self).wf(),
            final(display).wf(),
            final(display).counter == old(display).counter,
            reports(r, final(self).players@),
            final(self).players@ == ticked_players(*old(self)),
            final(display).leds@ == rendered(
                old(display).leds@,
                final(self).players@,
                final(self).obstacles@,
                final(self).boni@,
                old(display).counter as int,
            ),
            ({
                let st = substeps(
                    collision(old(self).players@, aged(old(self).obstacles@), aged(old(self).boni@), Seq::empty()),
                    PLAYER_SPEED as nat,
                );
                &&& final(self).players@ == cooled_all(st.0)
                &&& final(self).obstacle == next_interval(old(self).obstacle as int, old(display).counter as int)
            }),
            grown_by_fresh(moved_drops(*old(self)).0, final(self).obstacles@),
            grown_by_fresh(moved_drops(*old(self)).1, final(self).boni@),
    {
        let obstacle_roll: u64 = rand::random::<u64>();
        let bonus_roll: u64 = rand::random::<u64>();
        let obstacle = Drop::at_random();
        let bonus = Drop::at_random();
        let r = self.tick_with(display, obstacle_roll, bonus_roll, obstacle, bonus);
        proof {
            let st = substeps(
                collision(old(self).players@, aged(old(self).obstacles@), aged(old(self).boni@), Seq::empty()),
                PLAYER_SPEED as nat,
            );
            assert(st.1.is_prefix_of(self.obstacles@)) by {
                assert(self.obstacles@.subrange(0, st.1.len() as int) =~= st.1);
            }
            assert(st.2.is_prefix_of(self.boni@)) by {
                assert(self.boni@.subrange(0, st.2.len() as int) =~= st.2);
            }
        }
        r
    }
}


proof fn lemma_unmoved_contains(before: Seq<Player>, after: Seq<Player>, k: int)
    requires
        0 <= k < after.len(),
        k < before.len(),
        after[k].pos == before[k].pos,
    ensures
        unmoved(before, after).contains(after[k].color),
    decreases after.len(),
{
    let last = after.len() - 1;
    let rest = unmoved(before, after.drop_last());
    if k == last {
        assert(rest.push(after[k].color)[rest.len() as int] == after[k].color);
    } else {
        lemma_unmoved_contains(before, after.drop_last(), k);
        let j = choose|j: int| 0 <= j < rest.len() && rest[j] == after.drop_last()[k].color;
        if after[last].pos == before[last].pos {
            assert(rest.push(after[last].color)[j] == after[k].color);
        }
    }
}

/// A player without movement intent keeps its cell in every sub-step, so it
/// is always among the players that the sub-step's collision resolution
/// skips.
pub proof fn lemma_resting_player_skipped(ps: Seq<Player>, i: int)
    requires
        0 <= i < ps.len(),
        ps[i].turn is None,
    ensures
        moved_all(ps)[i] == ps[i],
        unmoved(ps, moved_all(ps)).contains(ps[i].color),
{
    lemma_unmoved_contains(ps, moved_all(ps), i);
}

/// The sum of the lives of the players `ps`.
pub open spec fn sum_lifes(ps: Seq<Player>) -> int
    decreases ps.len(),
{
    if ps.len() == 0 {
        0
    } else {
        sum_lifes(ps.drop_last()) + ps.last().lifes
    }
}

proof fn lemma_sum_lifes_update(ps: Seq<Player>, k: int, p: Player)
    requires
        0 <= k < ps.len(),
    ensures
        sum_lifes(ps.update(k, p)) == sum_lifes(ps) - ps[k].lifes + p.lifes,
    decreases ps.len(),
{
    let u = ps.update(k, p);
    if k == ps.len() - 1 {
        assert(u.drop_last() =~= ps.drop_last());
    } else {
        lemma_sum_lifes_update(ps.drop_last(), k, p);
        assert(u.drop_last() =~= ps.drop_last().update(k, p));
    }
}

proof fn lemma_sum_living(ps: Seq<Player>)
    ensures
        sum_lifes(living(ps)) == sum_lifes(ps),
    decreases ps.len(),
{
    if ps.len() > 0 {
        lemma_sum_living(ps.drop_last());
        let l = living(ps.drop_last());
        if ps.last().lifes > 0 {
            assert(l.push(ps.last()).drop_last() =~= l);
        }
    }
}

proof fn lemma_remaining_clear(ds: Seq<Drop>, k: int, d: Drop)
    requires
        0 <= k < ds.len(),
        !ds[k].clear,
        d.clear,
    ensures
        remaining(ds.update(k, d)).len() + 1 == remaining(ds).len(),
    decreases ds.len(),
{
    let u = ds.update(k, d);
    if k == ds.len() - 1 {
        assert(u.drop_last() =~= ds.drop_last());
    } else {
        lemma_remaining_clear(ds.drop_last(), k, d);
        assert(u.drop_last() =~= ds.drop_last().update(k, d));
    }
}

proof fn lemma_remaining_all(ds: Seq<Drop>)
    requires
        forall|i: int| 0 <= i < ds.len() ==> !(#[trigger] ds[i]).clear,
    ensures
        remaining(ds).len() == ds.len(),
    decreases ds.len(),
{
    if ds.len() > 0 {
        lemma_remaining_all(ds.drop_last());
        assert(!ds[ds.len() - 1].clear);
    }
}

proof fn lemma_obstacle_balance(lifes: int, pos: int, ds: Seq<Drop>, k: nat)
    requires
        lifes >= 0,
    ensures
        obstacle_pass(lifes, pos, ds, k).0 - lifes == remaining(obstacle_pass(lifes, pos, ds, k).1).len()
            - remaining(ds).len(),
    decreases k,
{
    if k == 0 || k > ds.len() {
    } else {
        lemma_obstacle_balance(lifes, pos, ds, (k - 1) as nat);
        lemma_obstacle_pass(lifes, pos, ds, (k - 1) as nat);
        let (l, d) = obstacle_pass(lifes, pos, ds, (k - 1) as nat);
        let o = d[k - 1];
        if !o.clear && o.spec_pos() == pos && l > 0 {
            lemma_remaining_clear(d, k - 1, Drop { clear: true, ..o });
        }
    }
}

proof fn lemma_bonus_balance(lifes: int, pos: int, ds: Seq<Drop>, k: nat)
    requires
        lifes <= usize::MAX,
    ensures
        bonus_pass(lifes, pos, ds, k).0 - lifes == remaining(ds).len() - remaining(
            bonus_pass(lifes, pos, ds, k).1,
        ).len(),
    decreases k,
{
    if k == 0 || k > ds.len() {
    } else {
        lemma_bonus_balance(lifes, pos, ds, (k - 1) as nat);
        lemma_bonus_pass(lifes, pos, ds, (k - 1) as nat);
        let (l, d) = bonus_pass(lifes, pos, ds, (k - 1) as nat);
        let b = d[k - 1];
        if !b.clear && b.spec_pos() == pos && l < usize::MAX {
            lemma_remaining_clear(d, k - 1, Drop { clear: true, ..b });
        }
    }
}

proof fn lemma_prefix_balance(
    ps: Seq<Player>,
    obs: Seq<Drop>,
    boni: Seq<Drop>,
    ignore: Seq<PlayColor>,
    k: nat,
)
    ensures
        ({
            let (ps1, o1, b1) = collide_prefix(ps, obs, boni, ignore, k);
            sum_lifes(ps1) - sum_lifes(ps) == (remaining(boni).len() - remaining(b1).len()) - (
            remaining(obs).len() - remaining(o1).len())
        }),
    decreases k,
{
    if k == 0 || k > ps.len() {
    } else {
        lemma_prefix_balance(ps, obs, boni, ignore, (k - 1) as nat);
        lemma_collide_prefix(ps, obs, boni, ignore, (k - 1) as nat);
        let (ps1, o1, b1) = collide_prefix(ps, obs, boni, ignore, (k - 1) as nat);
        let p = ps1[k - 1];
        let (hit, obs2, boni2) = collide_one(p, o1, b1, ignore);
        if p.jump == 0 && !ignore.contains(p.color) {
            lemma_obstacle_balance(p.lifes as int, p.pos.0 as int, o1, o1.len());
            lemma_obstacle_pass(p.lifes as int, p.pos.0 as int, o1, o1.len());
            let l1 = obstacle_pass(p.lifes as int, p.pos.0 as int, o1, o1.len()).0;
            lemma_bonus_balance(l1, p.pos.0 as int, b1, b1.len());
            lemma_bonus_pass(l1, p.pos.0 as int, b1, b1.len());
        }
        lemma_sum_lifes_update(ps1, k - 1, hit);
    }
}

/// In a collision resolution the lives change by exactly one per consumed
/// drop: the sum of the lives after it, plus the obstacles consumed, equals
/// the sum before it plus the bonuses consumed. Lives are natural numbers,
/// so none goes below zero.
pub proof fn lemma_collision_life_balance(
    ps: Seq<Player>,
    obs: Seq<Drop>,
    boni: Seq<Drop>,
    ignore: Seq<PlayColor>,
)
    requires
        drops_wf(obs),
        drops_wf(boni),
    ensures
        ({
            let (ps1, o1, b1) = collision(ps, obs, boni, ignore);
            sum_lifes(ps1) + (obs.len() - o1.len()) == sum_lifes(ps) + (boni.len() - b1.len())
        }),
{
    let (ps1, o1, b1) = collide_prefix(ps, obs, boni, ignore, ps.len());
    lemma_prefix_balance(ps, obs, boni, ignore, ps.len());
    lemma_sum_living(ps1);
    lemma_remaining_all(obs);
    lemma_remaining_all(boni);
}


proof fn lemma_sum_same_lifes(a: Seq<Player>, b: Seq<Player>)
    requires
        a.len() == b.len(),
        forall|i: int| 0 <= i < a.len() ==> (#[trigger] a[i]).lifes == b[i].lifes,
    ensures
        sum_lifes(a) == sum_lifes(b),
    decreases a.len(),
{
    if a.len() > 0 {
        lemma_sum_same_lifes(a.drop_last(), b.drop_last());
        assert(a[a.len() - 1].lifes == b[b.len() - 1].lifes);
    }
}

proof fn lemma_aged_wf(ds: Seq<Drop>)
    requires
        drops_wf(ds),
    ensures
        drops_wf(aged(ds)),
    decreases ds.len(),
{
    if ds.len() > 0 {
        lemma_aged_wf(ds.drop_last());
        assert(ds[ds.len() - 1].wf());
    }
}

proof fn lemma_collision_drops_wf(ps: Seq<Player>, obs: Seq<Drop>, boni: Seq<Drop>, ignore: Seq<PlayColor>)
    requires
        drops_wf(obs),
        drops_wf(boni),
    ensures
        drops_wf(collision(ps, obs, boni, ignore).1),
        drops_wf(collision(ps, obs, boni, ignore).2),
{
    lemma_collide_prefix(ps, obs, boni, ignore, ps.len());
    let (ps1, o1, b1) = collide_prefix(ps, obs, boni, ignore, ps.len());
    lemma_remaining_wf(obs, o1);
    lemma_remaining_wf(boni, b1);
}

proof fn lemma_substeps_balance(st: (Seq<Player>, Seq<Drop>, Seq<Drop>), k: nat)
    requires
        drops_wf(st.1),
        drops_wf(st.2),
    ensures
        ({
            let r = substeps(st, k);
            &&& sum_lifes(r.0) + (st.1.len() - r.1.len()) == sum_lifes(st.0) + (st.2.len() - r.2.len())
            &&& drops_wf(r.1)
            &&& drops_wf(r.2)
        }),
    decreases k,
{
    if k > 0 {
        lemma_substeps_balance(st, (k - 1) as nat);
        let q = substeps(st, (k - 1) as nat);
        let m = moved_all(q.0);
        lemma_sum_same_lifes(q.0, m);
        lemma_collision_life_balance(m, q.1, q.2, unmoved(q.0, m));
        lemma_collision_drops_wf(m, q.1, q.2, unmoved(q.0, m));
    }
}

/// Over a whole tick the lives change by exactly one per consumed drop: the
/// sum of the lives after the tick, plus the obstacles consumed in it,
/// equals the sum before it plus the bonuses consumed in it. (The drops
/// consumed are those of the aged drops that did not make it to the end of
/// the tick's movement phase; spawning only adds drops afterwards.)
pub proof fn lemma_tick_life_balance(ps: Seq<Player>, obs: Seq<Drop>, boni: Seq<Drop>)
    requires
        drops_wf(obs),
        drops_wf(boni),
    ensures
        ({
            let st = substeps(collision(ps, aged(obs), aged(boni), Seq::empty()), PLAYER_SPEED as nat);
            sum_lifes(cooled_all(st.0)) + (aged(obs).len() - st.1.len()) == sum_lifes(ps) + (aged(boni).len()
                - st.2.len())
        }),
{
    lemma_aged_wf(obs);
    lemma_aged_wf(boni);
    let c0 = collision(ps, aged(obs), aged(boni), Seq::empty());
    lemma_collision_life_balance(ps, aged(obs), aged(boni), Seq::empty());
    lemma_collision_drops_wf(ps, aged(obs), aged(boni), Seq::empty());
    lemma_substeps_balance(c0, PLAYER_SPEED as nat);
    let st = substeps(c0, PLAYER_SPEED as nat);
    lemma_sum_same_lifes(st.0, cooled_all(st.0));
}


/// `r` differs from `ds` only in drops on cell `pos`, and only by clearing them.
pub open spec fn cleared_only_at(ds: Seq<Drop>, r: Seq<Drop>, pos: int) -> bool {
    &&& same_drops(ds, r)
    &&& forall|i: int| 0 <= i < ds.len() && #[trigger] r[i] != ds[i] ==> ds[i].spec_pos() == pos && r[i].clear
}

proof fn lemma_obstacle_pass_frame(lifes: int, pos: int, ds: Seq<Drop>, k: nat)
    requires
        lifes >= 0,
    ensures
        cleared_only_at(ds, obstacle_pass(lifes, pos, ds, k).1, pos),
    decreases k,
{
    lemma_obstacle_pass(lifes, pos, ds, k);
    if k > 0 && k <= ds.len() {
        lemma_obstacle_pass_frame(lifes, pos, ds, (k - 1) as nat);
        let d = obstacle_pass(lifes, pos, ds, (k - 1) as nat).1;
        let r = obstacle_pass(lifes, pos, ds, k).1;
        assert forall|i: int| 0 <= i < ds.len() && #[trigger] r[i] != ds[i] implies ds[i].spec_pos() == pos && r[i].clear by {
            if r[i] == d[i] {
                assert(d[i] != ds[i]);
            }
        }
    }
}

/// With no bonus on cell `pos`, a bonus pass changes nothing.
proof fn lemma_bonus_pass_none(lifes: int, pos: int, ds: Seq<Drop>, k: nat)
    requires
        forall|i: int| 0 <= i < ds.len() ==> (#[trigger] ds[i]).spec_pos() != pos,
    ensures
        bonus_pass(lifes, pos, ds, k) == (lifes, ds),
    decreases k,
{
    if k > 0 && k <= ds.len() {
        lemma_bonus_pass_none(lifes, pos, ds, (k - 1) as nat);
    }
}

/// With exactly one uncleared obstacle on cell `pos`, at index `m`, and a
/// life left, an obstacle pass takes one life and clears that obstacle.
proof fn lemma_obstacle_pass_single(lifes: int, pos: int, ds: Seq<Drop>, m: int, k: nat)
    requires
        lifes >= 1,
        0 <= m < ds.len(),
        k <= ds.len(),
        !ds[m].clear,
        ds[m].spec_pos() == pos,
        forall|i: int| 0 <= i < ds.len() && i != m ==> (#[trigger] ds[i]).spec_pos() != pos,
    ensures
        obstacle_pass(lifes, pos, ds, k).0 == if k > m { lifes - 1 } else { lifes },
        obstacle_pass(lifes, pos, ds, k).1[m].clear == (k > m),
    decreases k,
{
    lemma_obstacle_pass(lifes, pos, ds, k);
    if k > 0 {
        lemma_obstacle_pass_single(lifes, pos, ds, m, (k - 1) as nat);
        lemma_obstacle_pass(lifes, pos, ds, (k - 1) as nat);
        let d = obstacle_pass(lifes, pos, ds, (k - 1) as nat).1;
        assert(d[k - 1].spec_pos() == ds[k - 1].spec_pos());
    }
}

proof fn lemma_collide_prefix_hit(
    ps: Seq<Player>,
    obs: Seq<Drop>,
    boni: Seq<Drop>,
    k: int,
    m: int,
    kk: nat,
)
    requires
        players_wf(ps),
        drops_wf(obs),
        drops_wf(boni),
        0 <= k < ps.len(),
        kk <= ps.len(),
        ps[k].jump == 0,
        forall|j: int| 0 <= j < ps.len() && j != k ==> (#[trigger] ps[j]).pos != ps[k].pos,
        0 <= m < obs.len(),
        obs[m].spec_pos() == ps[k].pos.0,
        forall|i: int| 0 <= i < obs.len() && i != m ==> (#[trigger] obs[i]).spec_pos() != ps[k].pos.0,
        forall|i: int| 0 <= i < boni.len() ==> (#[trigger] boni[i]).spec_pos() != ps[k].pos.0,
    ensures
        ({
            let (ps1, o1, b1) = collide_prefix(ps, obs, boni, Seq::empty(), kk);
            &&& ps1[k].lifes == if kk > k { ps[k].lifes - 1 } else { ps[k].lifes as int }
            &&& o1[m].clear == (kk > k)
            &&& forall|i: int| kk <= i < ps.len() ==> #[trigger] ps1[i] == ps[i]
        }),
    decreases kk,
{
    let pos = ps[k].pos.0 as int;
    lemma_collide_prefix(ps, obs, boni, Seq::empty(), kk);
    if kk > 0 {
        lemma_collide_prefix_hit(ps, obs, boni, k, m, (kk - 1) as nat);
        lemma_collide_prefix(ps, obs, boni, Seq::empty(), (kk - 1) as nat);
        let (ps1, o1, b1) = collide_prefix(ps, obs, boni, Seq::empty(), (kk - 1) as nat);
        let j = kk - 1;
        let p = ps1[j];
        assert(p == ps[j]);
        assert(ps[j].wf() && ps[j].lifes > 0);
        assert forall|i: int| 0 <= i < b1.len() implies (#[trigger] b1[i]).spec_pos() != pos by {
            assert(b1[i] == Drop { clear: b1[i].clear, ..boni[i] });
        }
        assert forall|i: int| 0 <= i < o1.len() && i != m implies (#[trigger] o1[i]).spec_pos() != pos by {
            assert(o1[i] == Drop { clear: o1[i].clear, ..obs[i] });
        }
        if p.jump == 0 && !Seq::<PlayColor>::empty().contains(p.color) {
            let q = p.pos.0 as int;
            lemma_obstacle_pass_frame(p.lifes as int, q, o1, o1.len());
            let (l1, o2) = obstacle_pass(p.lifes as int, q, o1, o1.len());
            lemma_obstacle_pass(p.lifes as int, q, o1, o1.len());
            lemma_bonus_pass_none(l1, pos, b1, b1.len());
            if j == k {
                assert(!o1[m].clear);
                assert(o1[m] == Drop { clear: o1[m].clear, ..obs[m] });
                lemma_obstacle_pass_single(p.lifes as int, q, o1, m, o1.len());
            } else {
                assert(q != pos);
                assert(o1[m].spec_pos() == pos);
                if o2[m] != o1[m] {
                    assert(o1[m].spec_pos() == q);
                }
            }
        }
    }
}

/// A player whose jump is over meets the obstacle on its cell. In a
/// collision resolution that skips no one, a player on the ground that is
/// alone on its cell, where exactly one obstacle and no bonus stand, loses
/// exactly one life (and leaves when it was its last), and that obstacle is
/// consumed. Applied to the aged drops, this is the first collision
/// resolution of a tick.
pub proof fn lemma_grounded_player_hit(ps: Seq<Player>, obs: Seq<Drop>, boni: Seq<Drop>, k: int)
    requires
        players_wf(ps),
        drops_wf(obs),
        drops_wf(boni),
        0 <= k < ps.len(),
        ps[k].jump == 0,
        forall|j: int| 0 <= j < ps.len() && j != k ==> (#[trigger] ps[j]).pos != ps[k].pos,
        exists|m: int|
            0 <= m < obs.len() && (#[trigger] obs[m]).spec_pos() == ps[k].pos.0 && forall|i: int|
                0 <= i < obs.len() && i != m ==> (#[trigger] obs[i]).spec_pos() != ps[k].pos.0,
        forall|i: int| 0 <= i < boni.len() ==> (#[trigger] boni[i]).spec_pos() != ps[k].pos.0,
    ensures
        ({
            let (ps1, o1, b1) = collision(ps, obs, boni, Seq::empty());
            &&& ps[k].lifes > 1 ==> ps1.contains(Player { lifes: (ps[k].lifes - 1) as usize, ..ps[k] })
            &&& ps[k].lifes == 1 ==> forall|i: int| 0 <= i < ps1.len() ==> (#[trigger] ps1[i]).color != ps[k].color
            &&& forall|i: int| 0 <= i < o1.len() ==> (#[trigger] o1[i]).spec_pos() != ps[k].pos.0
        }),
{
    let pos = ps[k].pos.0 as int;
    let m = choose|m: int|
        0 <= m < obs.len() && (#[trigger] obs[m]).spec_pos() == ps[k].pos.0 && forall|i: int|
            0 <= i < obs.len() && i != m ==> (#[trigger] obs[i]).spec_pos() != ps[k].pos.0;
    lemma_collide_prefix_hit(ps, obs, boni, k, m, ps.len());
    lemma_collide_prefix(ps, obs, boni, Seq::empty(), ps.len());
    let (ps1, o1, b1) = collide_prefix(ps, obs, boni, Seq::empty(), ps.len());
    lemma_living(ps1);
    lemma_remaining(o1);
    assert(ps1[k] == Player { lifes: (ps[k].lifes - 1) as usize, ..ps[k] });
    if ps[k].lifes > 1 {
        lemma_living_contains(ps1, k);
    } else {
        assert forall|i: int| 0 <= i < living(ps1).len() implies (#[trigger] living(ps1)[i]).color != ps[k].color by {
            let x = living(ps1)[i];
            assert(living(ps1).contains(x));
            let j = choose|j: int| 0 <= j < ps1.len() && ps1[j] == x;
            if j != k {
                assert(ps[j].color != ps[k].color) by {
                    if j < k {
                        assert(ps[j].color != ps[k].color);
                    }
                }
            }
        }
    }
    assert forall|i: int| 0 <= i < remaining(o1).len() implies (#[trigger] remaining(o1)[i]).spec_pos() != pos by {
        let x = remaining(o1)[i];
        assert(remaining(o1).contains(x));
        let j = choose|j: int| 0 <= j < o1.len() && o1[j] == x;
        assert(o1[j] == Drop { clear: o1[j].clear, ..obs[j] });
    }
}

proof fn lemma_living_contains(ps: Seq<Player>, k: int)
    requires
        0 <= k < ps.len(),
        ps[k].lifes > 0,
    ensures
        living(ps).contains(ps[k]),
    decreases ps.len(),
{
    let l = living(ps.drop_last());
    if k == ps.len() - 1 {
        assert(l.push(ps[k])[l.len() as int] == ps[k]);
    } else {
        lemma_living_contains(ps.drop_last(), k);
        assert(ps.drop_last()[k] == ps[k]);
        let j = choose|j: int| 0 <= j < l.len() && l[j] == ps[k];
        if ps.last().lifes > 0 {
            assert(l.push(ps.last())[j] == ps[k]);
        }
    }
}

} // verus!
