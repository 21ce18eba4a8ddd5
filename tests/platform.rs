use led_arcade::board::OBSTACLE_INTERVAL;
use led_arcade::player::LIFE_INIT;
use led_arcade::common::{PlayColor, LED_COUNT};
use led_arcade::display::LED;
use led_arcade::idle::PlatformIdle;
use led_arcade::platform::{
    AnswerSnake, MessagesSnake, PlatformSnake, SnakeGame, COUNTDOWN_PLAY, COUNTDOWN_WINNER,
};

fn join(p: &mut PlatformSnake, c: PlayColor) -> bool {
    match p.message(MessagesSnake::Join(c)) {
        Some(AnswerSnake::Joined(ok)) => ok,
        _ => panic!("join gives an answer"),
    }
}

fn state(p: &mut PlatformSnake) -> SnakeGame {
    match p.message(MessagesSnake::GetState) {
        Some(AnswerSnake::State(g)) => g,
        _ => panic!("state gives an answer"),
    }
}

fn tick(p: &mut PlatformSnake) {
    assert!(p.message(MessagesSnake::Tick).is_none());
}

#[test]
fn first_join_opens_signup() {
    let mut p = PlatformSnake::new();
    assert!(matches!(state(&mut p), SnakeGame::Idle));
    assert!(join(&mut p, PlayColor::Red));
    match state(&mut p) {
        SnakeGame::Signup(v) => assert_eq!(v, vec![PlayColor::Red]),
        _ => panic!("expected signup"),
    }
    assert_eq!(p.countdown, COUNTDOWN_PLAY);
}

#[test]
fn duplicate_join_is_refused() {
    let mut p = PlatformSnake::new();
    assert!(join(&mut p, PlayColor::Red));
    assert!(join(&mut p, PlayColor::Blue));
    assert!(!join(&mut p, PlayColor::Red));
    match state(&mut p) {
        SnakeGame::Signup(v) => assert_eq!(v, vec![PlayColor::Red, PlayColor::Blue]),
        _ => panic!("expected signup"),
    }
}

#[test]
fn later_joins_do_not_rearm_countdown() {
    let mut p = PlatformSnake::new();
    assert!(join(&mut p, PlayColor::Red));
    for _ in 0..10 {
        tick(&mut p);
    }
    assert_eq!(p.countdown, COUNTDOWN_PLAY - 10);
    assert!(join(&mut p, PlayColor::Green));
    assert_eq!(p.countdown, COUNTDOWN_PLAY - 10);
}

#[test]
fn single_player_match_ends_with_winner() {
    let mut p = PlatformSnake::new();
    assert!(join(&mut p, PlayColor::Red));
    for _ in 0..COUNTDOWN_PLAY {
        tick(&mut p);
    }
    match state(&mut p) {
        SnakeGame::Play(v) => assert_eq!(v, vec![PlayColor::Red]),
        _ => panic!("expected play"),
    }
    let board = p.board.as_ref().expect("a board while playing");
    assert_eq!(board.obstacle, OBSTACLE_INTERVAL);
    assert!(board.obstacles.is_empty() && board.boni.is_empty());
    assert_eq!(board.players.len(), 1);
    assert_eq!(board.players[0].color, PlayColor::Red);
    tick(&mut p);
    assert!(matches!(state(&mut p), SnakeGame::Winner(PlayColor::Red)));
    assert_eq!(p.countdown, COUNTDOWN_WINNER - 1);
}

#[test]
fn rejoin_after_reset_starts_with_fresh_lives() {
    let mut p = PlatformSnake::new();
    assert!(join(&mut p, PlayColor::Red));
    for _ in 0..COUNTDOWN_PLAY {
        tick(&mut p);
    }
    p.board.as_mut().unwrap().players[0].lifes = 2;
    tick(&mut p);
    assert!(matches!(state(&mut p), SnakeGame::Winner(PlayColor::Red)));
    for _ in 0..(COUNTDOWN_WINNER - 1) {
        tick(&mut p);
    }
    assert!(matches!(state(&mut p), SnakeGame::Idle));
    assert!(p.board.is_none());
    assert!(join(&mut p, PlayColor::Red));
    for _ in 0..COUNTDOWN_PLAY {
        tick(&mut p);
    }
    let board = p.board.as_ref().unwrap();
    assert_eq!(board.players[0].lifes, LIFE_INIT);
}

#[test]
fn join_while_playing_changes_nothing() {
    let mut p = PlatformSnake::new();
    assert!(join(&mut p, PlayColor::Red));
    assert!(join(&mut p, PlayColor::Green));
    for _ in 0..COUNTDOWN_PLAY {
        tick(&mut p);
    }
    assert!(join(&mut p, PlayColor::Blue));
    match state(&mut p) {
        SnakeGame::Play(v) => assert_eq!(v, vec![PlayColor::Red, PlayColor::Green]),
        _ => panic!("expected play"),
    }
}

#[test]
fn turns_and_jumps_reach_the_board() {
    let mut p = PlatformSnake::new();
    assert!(join(&mut p, PlayColor::Red));
    assert!(join(&mut p, PlayColor::Green));
    // ignored before the match
    assert!(p
        .message(MessagesSnake::PlayerJump(PlayColor::Red))
        .is_none());
    for _ in 0..COUNTDOWN_PLAY {
        tick(&mut p);
    }
    assert!(p.message(MessagesSnake::PlayerJump(PlayColor::Green)).is_none());
    let green = p.board.as_ref().unwrap().players[1];
    assert!(green.jump > 0);
}

#[test]
fn snapshot_is_stable_between_ticks() {
    let mut p = PlatformSnake::new();
    assert!(p.display.leds.iter().all(|l| *l == LED::white()));
    let a = p.get_circle();
    let b = p.get_circle();
    assert_eq!(a, b);
    assert_eq!(a.len(), 6 * LED_COUNT);
    assert_eq!(a, "ffffff".repeat(LED_COUNT));
    tick(&mut p);
    let c = p.get_circle();
    assert_eq!(c, p.get_circle());
    assert_eq!(c.len(), 6 * LED_COUNT);
    assert!(c.chars().all(|ch| ch.is_ascii_hexdigit() && !ch.is_ascii_uppercase()));
}

#[test]
fn signup_screen_shows_joined_colors() {
    let mut p = PlatformSnake::new();
    assert!(join(&mut p, PlayColor::Green));
    tick(&mut p);
    let s = p.get_circle();
    // first block in Green's pastel color
    assert_eq!(&s[0..6], "88ff88");
    assert_eq!(&s[6 * 47..6 * 48], "88ff88");
    // the bar is white below the countdown
    assert_eq!(&s[6 * 48..6 * 49], "ffffff");
}

#[test]
fn idle_platform_animates() {
    let mut p = PlatformIdle::new();
    let before = p.get_circle();
    p.message();
    assert_eq!(p.display.counter, 1);
    let after = p.get_circle();
    assert_eq!(after.len(), 6 * LED_COUNT);
    assert_ne!(before, after);
}
