use led_arcade::player::Player;
use led_arcade::position::Position;
use led_arcade::common::{PlayColor, LED_COUNT};
use led_arcade::display::{Display, LED};

fn led(r: u8, g: u8, b: u8) -> LED {
    LED { red: r, green: g, blue: b }
}

fn black_display() -> Display {
    let mut d = Display::new();
    d.reset();
    d
}

#[test]
fn hex_colors() {
    assert_eq!(PlayColor::Red.to_hex(), "ff0000");
    assert_eq!(PlayColor::Cyan.to_hex(), "00ffff");
    assert_eq!(PlayColor::Yellow.to_hex_pastel(), "ffff88");
    assert_eq!(PlayColor::Blue.to_hex_pastel(), "8888ff");
    assert_eq!(PlayColor::all().len(), 6);
    assert_eq!(PlayColor::all()[5], PlayColor::Magenta);
}

#[test]
fn from_hex_parses_pairs() {
    assert_eq!(LED::from_hex("22ff22"), led(0x22, 0xff, 0x22));
    assert_eq!(LED::from_hex("0A0b0C"), led(10, 11, 12));
    // a bad pair keeps its channel at full
    assert_eq!(LED::from_hex("zz0000"), led(255, 0, 0));
    assert_eq!(LED::from_hex("+f0000"), led(15, 0, 0));
    // another length gives white
    assert_eq!(LED::from_hex("fff"), LED::white());
    assert_eq!(LED::from_hex(""), LED::white());
}

#[test]
fn to_string_writes_hex() {
    assert_eq!(led(0, 0x0f, 0xa0).to_string(), "000fa0");
    assert_eq!(LED::white().to_string(), "ffffff");
    assert_eq!(LED::black().to_string(), "000000");
}

#[test]
fn hue_wheel() {
    assert_eq!(LED::from_hue(0), led(255, 128, 64));
    assert_eq!(LED::from_hue(63), led(129, 254, 64));
    assert_eq!(LED::from_hue(64), led(64, 255, 128));
    assert_eq!(LED::from_hue(130), led(132, 64, 251));
    assert_eq!(LED::from_hue(200), LED::white());
}

#[test]
fn brightness_mean_xor() {
    assert_eq!(led(255, 100, 0).brightness(20), led(51, 20, 0));
    assert_eq!(led(200, 200, 200).brightness(200), led(255, 255, 255));
    assert_eq!(led(30, 0, 3).mean(vec![led(0, 30, 3), led(0, 0, 4)]), led(10, 10, 3));
    assert_eq!(led(9, 9, 9).mean(vec![]), led(9, 9, 9));
    let mut l = led(0xff, 0x0f, 0);
    l.xor(led(0x0f, 0x0f, 0x01));
    assert_eq!(l, led(0xf0, 0, 1));
    assert!(LED::black().is_black());
    assert!(!led(0, 0, 1).is_black());
    assert_eq!(LED::from(PlayColor::Magenta), led(255, 0, 255));
}

#[test]
fn player_layer() {
    let mut d = black_display();
    let p = Player::new(10, PlayColor::Red, 1);
    d.draw_players(vec![p]);
    assert_eq!(d.leds[10], led(255, 0, 0));
    // band of 3 cells per life on each side, at 20 %
    assert_eq!(d.leds[8], led(51, 0, 0));
    assert_eq!(d.leds[12], led(51, 0, 0));
    assert_eq!(d.leds[7], led(51, 0, 0));
    assert_eq!(d.leds[13], led(51, 0, 0));
    assert_eq!(d.leds[6], LED::black());
    assert_eq!(d.leds[14], LED::black());
}

#[test]
fn player_layer_keeps_untouched_cells() {
    let mut d = Display::new();
    let p = Player::new(0, PlayColor::Blue, 1);
    d.draw_players(vec![p]);
    assert_eq!(d.leds[0], led(0, 0, 255));
    assert_eq!(d.leds[LED_COUNT - 1], led(0, 0, 51));
    assert_eq!(d.leds[3], led(0, 0, 51));
    assert_eq!(d.leds[LED_COUNT - 3], led(0, 0, 51));
    assert_eq!(d.leds[4], LED::white());
    assert_eq!(d.leds[100], LED::white());
}

#[test]
fn overlapping_players_combine_by_xor() {
    let mut d = black_display();
    let a = Player::new(10, PlayColor::Red, 1);
    let b = Player::new(12, PlayColor::Green, 1);
    d.draw_players(vec![a, b]);
    // cell 11: red band and green band
    assert_eq!(d.leds[11], led(51, 51, 0));
    // cell 12: green head xor red band
    assert_eq!(d.leds[12], led(51, 255, 0));
    // cell 10: red head xor green band
    assert_eq!(d.leds[10], led(255, 51, 0));
}

#[test]
fn jumping_player_blinks() {
    let mut d = black_display();
    let mut p = Player::new(10, PlayColor::Red, 1);
    p.jump = 5;
    p.jump_recover = 10;
    // counter 0: on half of the fast blink, no band while airborne
    d.draw_players(vec![p]);
    assert_eq!(d.leds[10], led(255, 0, 0));
    assert_eq!(d.leds[9], LED::black());
    let mut d = black_display();
    d.tick();
    d.tick();
    d.tick();
    d.draw_players(vec![p]);
    assert_eq!(d.leds[10], LED::black());
}

#[test]
fn drops_layer() {
    let mut d = black_display();
    d.draw_obstacles(vec![Position(3), Position(7)]);
    d.draw_boni(vec![Position(7), Position(9)]);
    assert_eq!(d.leds[3], LED::white());
    assert_eq!(d.leds[7], led(0x22, 0xff, 0x22));
    assert_eq!(d.leds[9], led(0x22, 0xff, 0x22));
    assert_eq!(d.leds[4], LED::black());
}

#[test]
fn bar_and_reset() {
    let mut d = Display::new();
    d.game_draw(3);
    assert_eq!(d.leds[2], LED::white());
    assert_eq!(d.leds[3], LED::black());
    d.tick();
    d.reset();
    assert_eq!(d.counter, 0);
    assert!(d.leds.iter().all(|l| l.is_black()));
}

#[test]
fn signup_blocks() {
    let mut d = Display::new();
    d.game_signup(vec![PlayColor::Red, PlayColor::Blue], 200);
    assert_eq!(d.leds[0], led(0xff, 0x88, 0x88));
    assert_eq!(d.leds[95], led(0x88, 0x88, 0xff));
    assert_eq!(d.leds[96], LED::white());
    assert_eq!(d.leds[199], LED::white());
    assert_eq!(d.leds[200], LED::black());
}

#[test]
fn winner_screen() {
    let mut d = Display::new();
    d.game_winner(PlayColor::Green, 12);
    // |12 % 10 - 5| * 20 = 60 %
    assert_eq!(d.leds[0], led(0, 153, 0));
    assert_eq!(d.leds[12], LED::black());
    assert_eq!(d.leds[12 + LED_COUNT / 2], LED::black());
    d.game_winner(PlayColor::Green, 5);
    assert_eq!(d.leds[0], LED::black());
}

#[test]
fn flow_averages_neighbours() {
    let mut d = black_display();
    d.leds[5] = led(90, 30, 3);
    d.counter = 400; // step 4 of the cycle: full brightness
    d.flow();
    assert_eq!(d.leds[4], led(30, 10, 1));
    assert_eq!(d.leds[5], led(30, 10, 1));
    assert_eq!(d.leds[6], led(30, 10, 1));
    assert_eq!(d.leds[7], LED::black());
}

#[test]
fn rainbow_injects_and_rotates() {
    let mut d = black_display();
    d.counter = 10;
    d.rainbow();
    // hue 10 entered at cell 10, averaged, dimmed to 60 %, shifted down one cell
    let hue = LED::from_hue(10);
    let avg = hue.mean(vec![LED::black(), LED::black()]).brightness(60);
    assert_eq!(d.leds[9], avg);
    assert_eq!(d.leds[8], avg);
    assert_eq!(d.leds[10], avg);
    assert_eq!(d.leds[11], LED::black());
}
