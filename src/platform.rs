//! The match lifecycle: signup, play, the end screens and back to idle.

use vstd::prelude::*;
use crate::board::{OBSTACLE_INTERVAL, clicked, grown_by_fresh, moved_drops, next_interval, rendered, start_cell, ticked_players, turned, Board};
use crate::player::{Player, TurnDir, LIFE_INIT};
use crate::common::{PlayColor, FREQUENCY, LED_COUNT};
use crate::display::{white_led, bar_leds, flow_leds, rainbow_leds, signup_leds, winner_leds, Display};

verus! {

/// Ticks between the first join and the start of the match.
pub const COUNTDOWN_PLAY: usize = LED_COUNT;

/// Ticks that the winner or draw screen stays up.
pub const COUNTDOWN_WINNER: usize = 4 * FREQUENCY;

/// The phase of a match.
#[derive(Debug, Clone)]
pub enum SnakeGame {
    Idle,
    Signup(Vec<PlayColor>),
    Play(Vec<PlayColor>),
    Winner(PlayColor),
    Draw,
}

/// `a` and `b` are the same phase with the same colors.
pub open spec fn same_game(a: SnakeGame, b: SnakeGame) -> bool {
    match (a, b) {
        (SnakeGame::Idle, SnakeGame::Idle) => true,
        (SnakeGame::Signup(x), SnakeGame::Signup(y)) => x@ == y@,
        (SnakeGame::Play(x), SnakeGame::Play(y)) => x@ == y@,
        (SnakeGame::Winner(x), SnakeGame::Winner(y)) => x == y,
        (SnakeGame::Draw, SnakeGame::Draw) => true,
        _ => false,
    }
}

/// `g` is the signup phase with the colors `v`.
pub open spec fn is_signup(g: SnakeGame, v: Seq<PlayColor>) -> bool {
    match g {
        SnakeGame::Signup(x) => x@ == v,
        _ => false,
    }
}

/// `g` is the play phase with the colors `v`.
pub open spec fn is_play(g: SnakeGame, v: Seq<PlayColor>) -> bool {
    match g {
        SnakeGame::Play(x) => x@ == v,
        _ => false,
    }
}

pub open spec fn is_idle(g: SnakeGame) -> bool {
    match g {
        SnakeGame::Idle => true,
        _ => false,
    }
}

/// No color occurs twice in `v`.
pub open spec fn distinct(v: Seq<PlayColor>) -> bool {
    forall|i: int, j: int| 0 <= i < j < v.len() ==> v[i] != v[j]
}

/// A message to the platform.
pub enum MessagesSnake {
    PlayerTurn(PlayColor, Option<TurnDir>),
    PlayerJump(PlayColor),
    Join(PlayColor),
    GetState,
    Tick,
}

/// An answer of the platform.
pub enum AnswerSnake {
    Joined(bool),
    State(SnakeGame),
}

/// A copy of `v`.
fn copy_colors(v: &Vec<PlayColor>) -> (r: Vec<PlayColor>)
    ensures
        r@ == v@,
{
    let mut r: Vec<PlayColor> = Vec::new();
    let mut i: usize = 0;
    while i < v.len()
        invariant
            i <= v.len(),
            r@ == v@.take(i as int),
        decreases v.len() - i,
    {
        r.push(v[i]);
        assert(r@ =~= v@.take(i as int + 1));
        i += 1;
    }
    assert(v@.take(v.len() as int) =~= v@);
    r
}

/// Whether `c` is among `v`.
fn contains_color(v: &Vec<PlayColor>, c: PlayColor) -> (r: bool)
    ensures
        r == v@.contains(c),
{
    let mut i: usize = 0;
    while i < v.len()
        invariant
            i <= v.len(),
            forall|k: int| 0 <= k < i ==> v@[k] != c,
        decreases v.len() - i,
    {
        if v[i] == c {
            return true;
        }
        i += 1;
    }
    false
}

/// The match controller: the phase, its countdown, the board while a match
/// runs and the display it paints.
#[derive(Debug)]
pub struct PlatformSnake {
    pub display: Display,
    pub board: Option<Board>,
    pub game: SnakeGame,
    pub countdown: usize,
}

/// A board freshly set up for the colors `v`: every player at its start
/// cell with `LIFE_INIT` lives and no timers running, no drops.
pub open spec fn fresh_board(b: Board, v: Seq<PlayColor>) -> bool {
    &&& b.wf()
    &&& b.players@.len() == v.len()
    &&& forall|i: int| 0 <= i < v.len() ==> #[trigger] b.players@[i] == Player::new_spec(
        start_cell(i, v.len() as int),
        v[i],
    )
    &&& b.obstacles@.len() == 0
    &&& b.boni@.len() == 0
    &&& b.obstacle == OBSTACLE_INTERVAL
}

/// One tick of the platform, from `old` to `new` (see `PlatformSnake::tick`).
pub open spec fn ticked(old: PlatformSnake, new: PlatformSnake) -> bool {
    let c1 = if old.display.counter < usize::MAX { old.display.counter + 1 } else { 0 };
    match old.game {
        SnakeGame::Idle => is_idle(new.game) && new.display.counter == c1
            && new.display.leds@ == rainbow_leds(old.display.leds@, c1 as int),
        SnakeGame::Signup(v) => if old.countdown == 1 {
            &&& is_play(new.game, v@)
            &&& new.board matches Some(b) && fresh_board(b, v@)
            &&& new.display.counter == 0
            &&& new.display.leds@ == bar_leds(0)
        } else {
            &&& is_signup(new.game, v@)
            &&& new.countdown == old.countdown - 1
            &&& new.display.counter == c1
            &&& new.display.leds@ == signup_leds(v@, old.countdown as int)
        },
        SnakeGame::Play(_) => {
            &&& new.board matches Some(b) && crate::board::reports(new.game, b.players@)
            &&& (old.board matches Some(ob) && new.board matches Some(b) && b.players@ == ticked_players(ob)
                && b.obstacle == next_interval(ob.obstacle as int, c1 as int)
                && grown_by_fresh(moved_drops(ob).0, b.obstacles@)
                && grown_by_fresh(moved_drops(ob).1, b.boni@))
            &&& (new.board matches Some(b) && new.display.leds@ == rendered(
                flow_leds(old.display.leds@, c1 as int),
                b.players@,
                b.obstacles@,
                b.boni@,
                c1 as int,
            ))
            &&& new.display.counter == c1
            &&& match new.game {
                SnakeGame::Play(_) => new.countdown == 0,
                _ => new.countdown == COUNTDOWN_WINNER - 1,
            }
        },
        SnakeGame::Winner(w) => {
            &&& new.display.counter == c1
            &&& new.display.leds@ == winner_leds(w, old.countdown as int)
            &&& if old.countdown == 1 {
                is_idle(new.game) && new.board is None
            } else {
                same_game(new.game, old.game) && new.countdown == old.countdown - 1
            }
        },
        SnakeGame::Draw => {
            &&& new.display.counter == c1
            &&& new.display.leds@ == bar_leds(old.countdown as int)
            &&& if old.countdown == 1 {
                is_idle(new.game) && new.board is None
            } else {
                same_game(new.game, old.game) && new.countdown == old.countdown - 1
            }
        },
    }
}

/// A join of color `c`, from `old` to `new`, answered with `ok` (see
/// `PlatformSnake::game_join`).
pub open spec fn joined(old: PlatformSnake, new: PlatformSnake, c: PlayColor, ok: bool) -> bool {
    &&& new.display == old.display
    &&& new.board == old.board
    &&& match old.game {
        SnakeGame::Idle => ok && is_signup(new.game, seq![c]) && new.countdown == COUNTDOWN_PLAY,
        SnakeGame::Signup(v) => if v@.contains(c) {
            !ok && is_signup(new.game, v@) && new.countdown == old.countdown
        } else {
            ok && is_signup(new.game, v@.push(c)) && new.countdown == old.countdown
        },
        _ => ok && same_game(new.game, old.game) && new.countdown == old.countdown,
    }
}

/// The platform `new` is `old` with the board, if any, changed by `f` on
/// its players; the phase, the countdown and the display stay.
pub open spec fn board_players_changed(
    old: PlatformSnake,
    new: PlatformSnake,
    f: spec_fn(Seq<Player>) -> Seq<Player>,
) -> bool {
    &&& new.display == old.display
    &&& same_game(new.game, old.game)
    &&& new.countdown == old.countdown
    &&& match (old.board, new.board) {
        (Some(b), Some(nb)) => nb.players@ == f(b.players@) && nb.obstacles@ == b.obstacles@
            && nb.boni@ == b.boni@ && nb.obstacle == b.obstacle,
        (None, None) => true,
        _ => false,
    }
}

impl PlatformSnake {
    pub open spec fn wf(self) -> bool {
        &&& self.display.wf()
        &&& (self.board matches Some(b) ==> b.wf())
        &&& match self.game {
            SnakeGame::Idle => self.board is None && self.countdown == 0,
            SnakeGame::Signup(v) => self.board is None && v@.len() >= 1 && distinct(v@) && self.countdown >= 1,
            SnakeGame::Play(_) => self.board matches Some(b) && b.wf() && self.countdown == 0,
            SnakeGame::Winner(_) => self.countdown >= 1,
            SnakeGame::Draw => self.countdown >= 1,
        }
    }

    /// An idle platform on an all-white display.
    pub fn new() -> (r: PlatformSnake)
        ensures
            r.wf(),
            is_idle(r.game),
            r.display.counter == 0,
            forall|i: int| 0 <= i < LED_COUNT ==> #[trigger] r.display.leds@[i] == white_led(),
    {
        PlatformSnake { display: Display::new(), board: None, game: SnakeGame::Idle, countdown: 0 }
    }

    /// The display as text (see `Display::get_circle`).
    pub fn get_circle(&self) -> (r: String)
        ensures
            r@ == crate::display::snapshot(self.display.leds@),
    {
        self.display.get_circle()
    }

    /// A copy of the current phase.
    pub fn state(&self) -> (r: SnakeGame)
        ensures
            same_game(r, self.game),
    {
        match &self.game {
            SnakeGame::Idle => SnakeGame::Idle,
            SnakeGame::Signup(v) => SnakeGame::Signup(copy_colors(v)),
            SnakeGame::Play(v) => SnakeGame::Play(copy_colors(v)),
            SnakeGame::Winner(c) => SnakeGame::Winner(*c),
            SnakeGame::Draw => SnakeGame::Draw,
        }
    }

    /// Sets the movement intent of player `c` of the running match, if any.
    fn player_turn(&mut self, c: PlayColor, d: Option<TurnDir>)
        requires
            old(self).wf(),
        ensures
            final(self).wf(),
            board_players_changed(*old(self), *final(self), |ps: Seq<Player>| turned(ps, c, d)),
    {
        if let Some(b) = &mut self.board {
            b.player_turn(c, d);
        }
    }

    /// Makes player `c` of the running match jump, if any.
    fn player_click(&mut self, c: PlayColor)
        requires
            old(self).wf(),
        ensures
            final(self).wf(),
            board_players_changed(*old(self), *final(self), |ps: Seq<Player>| clicked(ps, c)),
    {
        if let Some(b) = &mut self.board {
            b.player_click(c);
        }
    }

    /// A player asks to join with color `c`. From idle this opens the signup
    /// with `c` and arms the countdown to the match; during the signup `c`
    /// joins at the end unless it is already there, which is refused. In the
    /// other phases nothing happens. Only a refused join answers false.
    pub fn game_join(&mut self, c: PlayColor) -> (r: AnswerSnake)
        requires
            old(self).wf(),
        ensures
            final(self).wf(),
            r matches AnswerSnake::Joined(ok) && joined(*old(self), *final(self), c, ok),
    {
        let mut joined: Option<Vec<PlayColor>> = None;
        match &self.game {
            SnakeGame::Idle => {
                let mut v: Vec<PlayColor> = Vec::new();
                v.push(c);
                assert(v@ =~= seq![c]);
                joined = Some(v);
                self.countdown = COUNTDOWN_PLAY;
            },
            SnakeGame::Signup(v) => {
                if contains_color(v, c) {
                    return AnswerSnake::Joined(false);
                }
                let mut w = copy_colors(v);
                w.push(c);
                proof {
                    assert forall|i: int, j: int| 0 <= i < j < w@.len() implies w@[i] != w@[j] by {
                        if j == w@.len() - 1 {
                            assert(v@[i] == w@[i]);
                        } else {
                            assert(v@[i] != v@[j]);
                        }
                    }
                }
                joined = Some(w);
            },
            _ => {},
        }
        if let Some(w) = joined {
            self.game = SnakeGame::Signup(w);
        }
        AnswerSnake::Joined(true)
    }

    /// One tick of the match. The display counter advances, then the phase
    /// paints the display: idle runs the rainbow, signup shows the countdown
    /// bar and the joined colors, play runs the play animation and a board
    /// tick (whose result becomes the phase; a winner or a draw arms the end
    /// countdown), the winner and draw screens show their countdown. Then a
    /// running countdown steps down; when it expires, a signup starts the
    /// match on a fresh board over the joined colors with a reset display,
    /// and an end screen gives way to idle, discarding the board.
    pub fn tick(&mut self)
        requires
            old(self).wf(),
        ensures
            final(self).wf(),
            ticked(*old(self), *final(self)),
    {
        self.display.tick();
        let mut next: Option<SnakeGame> = None;
        match &self.game {
            SnakeGame::Idle => {
                self.display.rainbow();
            },
            SnakeGame::Signup(players) => {
                let v = copy_colors(players);
                self.display.game_signup(v, self.countdown);
            },
            SnakeGame::Play(_) => {
                self.display.flow();
                if let Some(board) = &mut self.board {
                    let g = board.tick(&mut self.display);
                    match g {
                        SnakeGame::Play(_) => {},
                        _ => {
                            self.countdown = COUNTDOWN_WINNER;
                        },
                    }
                    next = Some(g);
                }
            },
            SnakeGame::Winner(winner) => {
                self.display.game_winner(*winner, self.countdown);
            },
            SnakeGame::Draw => {
                self.display.game_draw(self.countdown);
            },
        }
        if let Some(g) = next {
            self.game = g;
        }
        if self.countdown > 0 {
            self.countdown -= 1;
            if self.countdown == 0 {
                let mut start: Option<Vec<PlayColor>> = None;
                if let SnakeGame::Signup(players) = &self.game {
                    start = Some(copy_colors(players));
                }
                match start {
                    Some(players) => {
                        let v = copy_colors(&players);
                        self.board = Some(Board::new(players));
                        self.display.reset();
                        self.game = SnakeGame::Play(v);
                    },
                    None => {
                        self.board = None;
                        self.game = SnakeGame::Idle;
                    },
                }
            }
        }
    }

    /// Handles one message: a turn or a jump goes to the board of the running
    /// match, a join answers whether it was accepted (see `game_join`), a
    /// state request answers the current phase, a tick advances the match.
    pub fn message(&mut self, msg: MessagesSnake) -> (r: Option<AnswerSnake>)
        requires
            old(self).wf(),
        ensures
            final(self).wf(),
            match msg {
                MessagesSnake::PlayerTurn(c, d) => r is None && board_players_changed(
                    *old(self),
                    *final(self),
                    |ps: Seq<Player>| turned(ps, c, d),
                ),
                MessagesSnake::PlayerJump(c) => r is None && board_players_changed(
                    *old(self),
                    *final(self),
                    |ps: Seq<Player>| clicked(ps, c),
                ),
                MessagesSnake::Join(c) => r matches Some(AnswerSnake::Joined(ok)) && joined(*old(self), *final(self), c, ok),
                MessagesSnake::GetState => r matches Some(AnswerSnake::State(g)) && same_game(g, old(self).game)
                    && *final(self) == *old(self),
                MessagesSnake::Tick => r is None && ticked(*old(self), *final(self)),
            },
    {
        match msg {
            MessagesSnake::PlayerTurn(player, dir) => self.player_turn(player, dir),
            MessagesSnake::PlayerJump(play_color) => self.player_click(play_color),
            MessagesSnake::Join(play_color) => return Some(self.game_join(play_color)),
            MessagesSnake::GetState => return Some(AnswerSnake::State(self.state())),
            MessagesSnake::Tick => self.tick(),
        }
        None
    }
}

/// Every match starts afresh: whenever a tick takes the platform into play
/// from any other phase (in particular after an end screen went back to
/// idle and the players joined again), the board is new and every player on
/// it has `LIFE_INIT` lives and no jump timers running; nothing carries over
/// from an earlier match.
pub proof fn lemma_match_starts_fresh(old: PlatformSnake, new: PlatformSnake)
    requires
        old.wf(),
        ticked(old, new),
        !(old.game is Play),
        new.game is Play,
    ensures
        new.board matches Some(b) && (forall|i: int|
            0 <= i < b.players@.len() ==> (#[trigger] b.players@[i]).lifes == LIFE_INIT
                && b.players@[i].jump == 0 && b.players@[i].jump_recover == 0),
{
    match old.game {
        SnakeGame::Signup(v) => {
            let b = new.board->Some_0;
            assert forall|i: int| 0 <= i < b.players@.len() implies (#[trigger] b.players@[i]).lifes == LIFE_INIT
                && b.players@[i].jump == 0 && b.players@[i].jump_recover == 0 by {
                assert(b.players@[i] == Player::new_spec(start_cell(i, v@.len() as int), v@[i]));
            }
        },
        _ => {},
    }
}

} // verus!
