use led_arcade::board::{Board, Drop, BONUS_INTERVAL, OBSTACLE_FLOOR, OBSTACLE_INTERVAL};
use led_arcade::player::{Player, TurnDir, JUMP_COOLDOWN, JUMP_DURATION, LIFE_INIT};
use led_arcade::position::Position;
use led_arcade::common::{PlayColor, LED_COUNT};
use led_arcade::display::Display;
use led_arcade::platform::SnakeGame;

/// One board tick as the platform runs it, with draws that spawn nothing.
fn quiet_tick(board: &mut Board, display: &mut Display) -> SnakeGame {
    display.tick();
    let spare = Drop::spawn(Position(0), false);
    board.tick_with(display, 1, 1, spare, spare)
}

fn find(board: &Board, c: PlayColor) -> Option<Player> {
    board.players.iter().copied().find(|p| p.color == c)
}

fn sum_lifes(board: &Board) -> usize {
    board.players.iter().map(|p| p.lifes).sum()
}

#[test]
fn offset_round_trip_for_all_cells() {
    let n = LED_COUNT as i32;
    for a in 0..LED_COUNT {
        for b in 0..LED_COUNT {
            let d = Position::distances(a, b);
            assert!(d > -n / 2 && d <= n / 2, "a={a} b={b} d={d}");
            assert_eq!(Position(a).add(d), Position(b));
        }
    }
}

#[test]
fn distances_examples() {
    assert_eq!(Position::distances(10, 5), -5);
    assert_eq!(Position::distances(5, 10), 5);
    assert_eq!(Position::distances(0, 287), -1);
    assert_eq!(Position::distances(287, 0), 1);
    assert_eq!(Position::distances(0, 1), 1);
    assert_eq!(Position(0).add(Position::distances(0, 1)), Position(1));
    // half a ring is the positive offset
    assert_eq!(Position::distances(144, 0), 144);
    assert_eq!(Position::distances(0, 144), 144);
    assert_eq!(Position(3).direction(Position(1)), -2);
}

#[test]
fn add_and_sub_wrap() {
    assert_eq!(Position(287).add(1), Position(0));
    assert_eq!(Position(0).add(-1), Position(287));
    assert_eq!(Position(5).add(-300), Position(281));
    assert_eq!(Position(5).add(576 + 7), Position(12));
    assert_eq!(Position(0).sub(1), Position(287));
    assert_eq!(Position(10).sub(-3), Position(13));
}

#[test]
fn new_board_spreads_players() {
    let b = Board::new(vec![PlayColor::Red, PlayColor::Green, PlayColor::Blue]);
    let cells: Vec<usize> = b.players.iter().map(|p| p.pos.0).collect();
    assert_eq!(cells, vec![0, 96, 192]);
    assert!(b.players.iter().all(|p| p.lifes == LIFE_INIT && p.jump == 0 && p.jump_recover == 0));
    assert!(b.obstacles.is_empty() && b.boni.is_empty());
    assert_eq!(b.obstacle, OBSTACLE_INTERVAL);
}

#[test]
fn spacing_blocks_approach() {
    let mut board = Board::new(vec![PlayColor::Red, PlayColor::Blue]);
    let mut display = Display::new();
    assert_eq!(find(&board, PlayColor::Red).unwrap().pos, Position(0));
    assert_eq!(find(&board, PlayColor::Blue).unwrap().pos, Position(144));
    board.player_turn(PlayColor::Red, Some(TurnDir::Right));
    for _ in 0..200 {
        quiet_tick(&mut board, &mut display);
    }
    // 144 - 129 = 15 = floor(1.5 * (5 + 5)); one more step would leave 14
    assert_eq!(find(&board, PlayColor::Red).unwrap().pos, Position(129));
}

#[test]
fn spacing_blocks_approach_from_the_other_side() {
    let mut board = Board::new(vec![PlayColor::Red, PlayColor::Blue]);
    let mut display = Display::new();
    board.player_turn(PlayColor::Blue, Some(TurnDir::Left));
    for _ in 0..200 {
        quiet_tick(&mut board, &mut display);
    }
    assert_eq!(find(&board, PlayColor::Blue).unwrap().pos, Position(15));
}

#[test]
fn resting_player_does_not_move() {
    let mut p = Player::new(7, PlayColor::Cyan, 5);
    let others = vec![Player::new(100, PlayColor::Red, 5)];
    p.tick(&others);
    assert_eq!(p.pos, Position(7));
    p.set_turn(Some(TurnDir::Left));
    p.tick(&others);
    assert_eq!(p.pos, Position(6));
}

#[test]
fn jump_and_cooldown() {
    let mut board = Board::new(vec![PlayColor::Red, PlayColor::Blue]);
    board.player_click(PlayColor::Red);
    let red = find(&board, PlayColor::Red).unwrap();
    assert_eq!(red.jump, JUMP_DURATION);
    assert_eq!(red.jump_recover, JUMP_DURATION + JUMP_COOLDOWN);
    let mut display = Display::new();
    quiet_tick(&mut board, &mut display);
    let red = find(&board, PlayColor::Red).unwrap();
    assert_eq!(red.jump, JUMP_DURATION - 1);
    // still recovering: a second jump is ignored
    board.player_click(PlayColor::Red);
    let red2 = find(&board, PlayColor::Red).unwrap();
    assert_eq!(red2, red);
}

#[test]
fn unknown_player_actions_are_ignored() {
    let mut board = Board::new(vec![PlayColor::Red]);
    let before: Vec<Player> = board.players.clone();
    board.player_turn(PlayColor::Magenta, Some(TurnDir::Left));
    board.player_click(PlayColor::Magenta);
    assert_eq!(board.players, before);
}

#[test]
fn jump_protects_for_its_duration() {
    // One player walking right with an obstacle travelling along on its cell.
    let mut board = Board::new(vec![PlayColor::Red]);
    let mut display = Display::new();
    board.player_turn(PlayColor::Red, Some(TurnDir::Right));
    board.player_click(PlayColor::Red);
    // Run the jump timer down to 4 before the obstacle arrives.
    while find(&board, PlayColor::Red).unwrap().jump > 4 {
        quiet_tick(&mut board, &mut display);
    }
    // This tick spawns an obstacle on the player's cell after it moved.
    display.tick();
    let cell = find(&board, PlayColor::Red).unwrap().pos.0 + 1;
    let obstacle = Drop::spawn(Position(cell % LED_COUNT), false);
    let spare = Drop::spawn(Position(0), false);
    board.tick_with(&mut display, 0, 1, obstacle, spare);
    let red = find(&board, PlayColor::Red).unwrap();
    assert_eq!(red.jump, 3);
    assert_eq!(red.pos.0, cell % LED_COUNT);
    assert_eq!(board.obstacles.len(), 1);
    // Three ticks co-located with the obstacle: no damage.
    for left in [2, 1, 0] {
        quiet_tick(&mut board, &mut display);
        let red = find(&board, PlayColor::Red).unwrap();
        assert_eq!(red.lifes, LIFE_INIT);
        assert_eq!(red.jump, left);
        assert_eq!(board.obstacles.len(), 1);
        assert_eq!(board.obstacles[0].pos(), red.pos);
    }
    // First tick after the jump ended: hit.
    quiet_tick(&mut board, &mut display);
    let red = find(&board, PlayColor::Red).unwrap();
    assert_eq!(red.lifes, LIFE_INIT - 1);
    assert!(board.obstacles.is_empty());
}

#[test]
fn lives_follow_consumed_drops() {
    let mut board = Board::new(vec![PlayColor::Red, PlayColor::Green]);
    let mut display = Display::new();
    // An obstacle and a bonus spawned on cell 287, moving right: next tick
    // both stand on cell 0 where Red waits.
    display.tick();
    let obstacle = Drop::spawn(Position(287), false);
    let bonus = Drop::spawn(Position(287), false);
    board.tick_with(&mut display, 0, 0, obstacle, bonus);
    let obstacles_before = board.obstacles.len();
    let boni_before = board.boni.len();
    assert_eq!((obstacles_before, boni_before), (1, 1));
    let before = sum_lifes(&board);
    quiet_tick(&mut board, &mut display);
    let consumed_obstacles = obstacles_before - board.obstacles.len();
    let consumed_boni = boni_before - board.boni.len();
    assert_eq!((consumed_obstacles, consumed_boni), (1, 1));
    assert_eq!(sum_lifes(&board) + consumed_obstacles, before + consumed_boni);
    assert_eq!(find(&board, PlayColor::Red).unwrap().lifes, LIFE_INIT);
}

#[test]
fn last_life_lost_removes_player() {
    let mut board = Board::new(vec![PlayColor::Red, PlayColor::Green]);
    board.players[0].lifes = 1;
    let mut display = Display::new();
    display.tick();
    let obstacle = Drop::spawn(Position(287), false);
    let spare = Drop::spawn(Position(5), false);
    board.tick_with(&mut display, 0, 1, obstacle, spare);
    let g = quiet_tick(&mut board, &mut display);
    assert!(find(&board, PlayColor::Red).is_none());
    assert!(matches!(g, SnakeGame::Winner(PlayColor::Green)));
}

#[test]
fn all_players_gone_is_a_draw() {
    let mut board = Board::new(vec![]);
    let mut display = Display::new();
    let g = quiet_tick(&mut board, &mut display);
    assert!(matches!(g, SnakeGame::Draw));
}

#[test]
fn two_players_keep_playing() {
    let mut board = Board::new(vec![PlayColor::Red, PlayColor::Green]);
    let mut display = Display::new();
    match quiet_tick(&mut board, &mut display) {
        SnakeGame::Play(v) => assert_eq!(v, vec![PlayColor::Red, PlayColor::Green]),
        _ => panic!("expected play"),
    }
}

#[test]
fn drops_age_and_vanish() {
    let mut d = Drop::spawn(Position(10), true);
    assert_eq!(d.pos(), Position(10));
    assert!(d.tick_visible());
    assert_eq!(d.pos(), Position(9));
    for _ in 0..(LED_COUNT - 2) {
        assert!(d.tick_visible());
    }
    assert_eq!(d.counter, 1);
    assert!(!d.tick_visible());
    assert!(!d.tick_visible());
    assert_eq!(d.counter, 0);
}

#[test]
fn random_drops_are_on_the_ring() {
    for _ in 0..100 {
        let d = Drop::at_random();
        assert!(d.init.0 < LED_COUNT);
        assert!(d.direction == 1 || d.direction == -1);
        assert_eq!(d.counter, LED_COUNT as i32);
        assert!(!d.clear);
    }
}

#[test]
fn obstacle_interval_shrinks_every_ten_seconds() {
    let mut board = Board::new(vec![PlayColor::Red, PlayColor::Green]);
    let mut display = Display::new();
    for _ in 0..499 {
        quiet_tick(&mut board, &mut display);
    }
    assert_eq!(board.obstacle, OBSTACLE_INTERVAL);
    quiet_tick(&mut board, &mut display);
    assert_eq!(board.obstacle, OBSTACLE_INTERVAL * 2 / 3);
    for _ in 0..500 {
        quiet_tick(&mut board, &mut display);
    }
    assert_eq!(board.obstacle, OBSTACLE_INTERVAL * 2 / 3 * 2 / 3);
}

#[test]
fn obstacle_interval_never_below_floor() {
    let mut board = Board::new(vec![PlayColor::Red, PlayColor::Green]);
    let mut display = Display::new();
    let mut last = board.obstacle;
    for _ in 0..(500 * 20) {
        quiet_tick(&mut board, &mut display);
        assert!(board.obstacle >= OBSTACLE_FLOOR);
        assert!(board.obstacle <= last);
        last = board.obstacle;
    }
    assert_eq!(board.obstacle, OBSTACLE_FLOOR);
}

#[test]
fn spawn_chances() {
    let mut board = Board::new(vec![PlayColor::Red, PlayColor::Green]);
    let mut display = Display::new();
    display.tick();
    let d = Drop::spawn(Position(50), false);
    board.tick_with(&mut display, OBSTACLE_INTERVAL as u64 * 3, BONUS_INTERVAL as u64 + 1, d, d);
    assert_eq!(board.obstacles.len(), 1);
    assert_eq!(board.boni.len(), 0);
    display.tick();
    board.tick_with(&mut display, 7, BONUS_INTERVAL as u64 * 2, d, d);
    assert_eq!(board.obstacles.len(), 1);
    assert_eq!(board.boni.len(), 1);
}

#[test]
fn full_tick_with_random_draws_keeps_players() {
    let mut board = Board::new(vec![PlayColor::Red, PlayColor::Green]);
    let mut display = Display::new();
    display.tick();
    let g = board.tick(&mut display);
    assert!(matches!(g, SnakeGame::Play(_)));
    assert!(board.obstacles.len() <= 1 && board.boni.len() <= 1);
    for d in board.obstacles.iter().chain(board.boni.iter()) {
        assert_eq!(d.counter, LED_COUNT as i32);
        assert!(!d.clear);
    }
}

#[test]
fn collision_skips_ignored_and_jumping_players() {
    let mut board = Board::new(vec![PlayColor::Red, PlayColor::Green]);
    board.obstacles = vec![Drop::spawn(Position(0), false), Drop::spawn(Position(144), true)];
    board.player_click(PlayColor::Green);
    board.check_collision(&vec![PlayColor::Red]);
    assert_eq!(board.players[0].lifes, LIFE_INIT);
    assert_eq!(board.players[1].lifes, LIFE_INIT);
    assert_eq!(board.obstacles.len(), 2);
    board.check_collision(&vec![]);
    assert_eq!(board.players[0].lifes, LIFE_INIT - 1);
    assert_eq!(board.obstacles.len(), 1);
}

#[test]
fn stacked_obstacles_never_take_lives_below_zero() {
    let mut board = Board::new(vec![PlayColor::Red, PlayColor::Green]);
    board.players[0].lifes = 1;
    board.obstacles = vec![Drop::spawn(Position(0), false), Drop::spawn(Position(0), true)];
    board.check_collision(&vec![]);
    // one obstacle consumed the last life, the other stays on the ring
    assert!(find(&board, PlayColor::Red).is_none());
    assert_eq!(board.obstacles.len(), 1);
    assert_eq!(board.players.len(), 1);
}

#[test]
fn bonus_after_obstacle_on_the_same_cell_saves_the_player() {
    let mut board = Board::new(vec![PlayColor::Red, PlayColor::Green]);
    board.players[0].lifes = 1;
    board.obstacles = vec![Drop::spawn(Position(0), false)];
    board.boni = vec![Drop::spawn(Position(0), false)];
    board.check_collision(&vec![]);
    assert_eq!(find(&board, PlayColor::Red).unwrap().lifes, 1);
    assert!(board.obstacles.is_empty() && board.boni.is_empty());
}
