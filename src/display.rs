//! The renderer: a persistent ring of colors that every tick paints the
//! players, the drops and the phase of the match into.

use vstd::prelude::*;
use vstd::string::StringSliceAdditionalSpecFns;
use crate::player::Player;
use crate::position::{wrap_add, Position};
use crate::common::{hex_rgb, push_hex_byte, PlayColor, LED_COUNT};

verus! {

/// Ticks of one blink cycle of a jumping player.
pub const BLINK_JUMP: usize = 5;

/// Ticks of one blink cycle of the band of a recovering player.
pub const BLINK_RECOVER: usize = 10;

/// Brightness, in percent, of the band around a player.
pub const BAND_BRIGHTNESS: u32 = 20;

/// Brightness, in percent, of the idle animation's low-pass filter.
pub const RAINBOW_BRIGHTNESS: u32 = 60;

/// One color cell of the ring.
#[derive(Clone, Copy, Debug, PartialEq, Eq, Structural)]
pub struct LED {
    pub red: u8,
    pub green: u8,
    pub blue: u8,
}

/// A color channel scaled to `pct` percent, capped at full brightness.
pub open spec fn scale(c: u8, pct: int) -> u8 {
    if c * pct / 100 > 255 {
        255
    } else {
        (c * pct / 100) as u8
    }
}

pub open spec fn rgb_led(c: (u8, u8, u8)) -> LED {
    LED { red: c.0, green: c.1, blue: c.2 }
}

pub open spec fn black_led() -> LED {
    LED { red: 0, green: 0, blue: 0 }
}

pub open spec fn white_led() -> LED {
    LED { red: 255, green: 255, blue: 255 }
}

/// The color of a bonus.
pub open spec fn bonus_led() -> LED {
    LED { red: 0x22, green: 0xff, blue: 0x22 }
}

pub open spec fn xor_led(a: LED, b: LED) -> LED {
    LED { red: a.red ^ b.red, green: a.green ^ b.green, blue: a.blue ^ b.blue }
}

/// The channel sums of a sequence of colors.
pub open spec fn sum_red(s: Seq<LED>) -> int
    decreases s.len(),
{
    if s.len() == 0 { 0 } else { sum_red(s.drop_last()) + s.last().red }
}

pub open spec fn sum_green(s: Seq<LED>) -> int
    decreases s.len(),
{
    if s.len() == 0 { 0 } else { sum_green(s.drop_last()) + s.last().green }
}

pub open spec fn sum_blue(s: Seq<LED>) -> int
    decreases s.len(),
{
    if s.len() == 0 { 0 } else { sum_blue(s.drop_last()) + s.last().blue }
}

/// The channel-wise mean, rounded down, of `c` and `others`.
pub open spec fn mean_led(c: LED, others: Seq<LED>) -> LED {
    let s = seq![c] + others;
    LED {
        red: (sum_red(s) / s.len() as int) as u8,
        green: (sum_green(s) / s.len() as int) as u8,
        blue: (sum_blue(s) / s.len() as int) as u8,
    }
}

/// The value of a hexadecimal digit, in either case.
pub open spec fn hex_value(b: u8) -> Option<u8> {
    if 48 <= b <= 57 {
        Some((b - 48) as u8)
    } else if 97 <= b <= 102 {
        Some((b - 87) as u8)
    } else if 65 <= b <= 70 {
        Some((b - 55) as u8)
    } else {
        None
    }
}

/// A byte written as two hexadecimal digits, or as `+` and one digit.
pub open spec fn parse_pair(a: u8, b: u8) -> Option<u8> {
    if a == 43 {
        hex_value(b)
    } else {
        match (hex_value(a), hex_value(b)) {
            (Some(x), Some(y)) => Some((x * 16 + y) as u8),
            _ => None,
        }
    }
}

pub open spec fn channel_or_full(v: Option<u8>) -> u8 {
    match v {
        Some(x) => x,
        None => 255,
    }
}

/// The color that six bytes of hexadecimal text give: each channel whose
/// two digits do not parse stays at full; text of another length is white.
pub open spec fn hex_led(t: Seq<u8>) -> LED {
    if t.len() == 6 {
        LED {
            red: channel_or_full(parse_pair(t[0], t[1])),
            green: channel_or_full(parse_pair(t[2], t[3])),
            blue: channel_or_full(parse_pair(t[4], t[5])),
        }
    } else {
        white_led()
    }
}

/// The hue wheel: 192 hues in three segments of 64.
pub open spec fn hue_led(hue: u8) -> LED {
    let bright = hue % 64;
    let one = (255 - bright * 2) as u8;
    let two = (128 + bright * 2) as u8;
    if hue / 64 == 0 {
        LED { red: one, green: two, blue: 64 }
    } else if hue / 64 == 1 {
        LED { red: 64, green: one, blue: two }
    } else if hue / 64 == 2 {
        LED { red: two, green: 64, blue: one }
    } else {
        white_led()
    }
}

fn hex_value_of(b: u8) -> (r: Option<u8>)
    ensures
        r == hex_value(b),
{
    if 48 <= b && b <= 57 {
        Some(b - 48)
    } else if 97 <= b && b <= 102 {
        Some(b - 87)
    } else if 65 <= b && b <= 70 {
        Some(b - 55)
    } else {
        None
    }
}

fn pair_value(a: u8, b: u8) -> (r: Option<u8>)
    ensures
        r == parse_pair(a, b),
{
    if a == 43 {
        hex_value_of(b)
    } else {
        match (hex_value_of(a), hex_value_of(b)) {
            (Some(x), Some(y)) => Some(x * 16 + y),
            _ => None,
        }
    }
}

fn scale_channel(c: u8, pct: u32) -> (r: u8)
    ensures
        r == scale(c, pct as int),
{
    assert((c as u64) * (pct as u64) <= 255 * 0xffff_ffff) by (nonlinear_arith)
        requires
            c <= 255,
            pct <= 0xffff_ffff,
    ;
    let v: u64 = (c as u64) * (pct as u64) / 100;
    if v > 255 {
        255
    } else {
        v as u8
    }
}

impl LED {
    pub fn white() -> (r: LED)
        ensures
            r == white_led(),
    {
        LED { red: 255, green: 255, blue: 255 }
    }

    pub fn black() -> (r: LED)
        ensures
            r == black_led(),
    {
        LED { red: 0, green: 0, blue: 0 }
    }

    /// A color of the hue wheel.
    pub fn from_hue(hue: u8) -> (r: LED)
        ensures
            r == hue_led(hue),
    {
        let bright = hue % 64;
        let h = hue / 64;
        let one = 255 - bright * 2;
        let two = 128 + bright * 2;
        match h {
            0 => LED { red: one, green: two, blue: 64 },
            1 => LED { red: 64, green: one, blue: two },
            2 => LED { red: two, green: 64, blue: one },
            _ => LED::white(),
        }
    }

    /// The color written as six hexadecimal digits ("22ff22").
    pub fn from_hex(hex: &str) -> (r: LED)
        ensures
            r == hex_led(hex.spec_bytes()),
    {
        let t = hex.as_bytes();
        let mut l = LED::white();
        if t.len() == 6 {
            if let Some(red) = pair_value(t[0], t[1]) {
                l.red = red;
            }
            if let Some(green) = pair_value(t[2], t[3]) {
                l.green = green;
            }
            if let Some(blue) = pair_value(t[4], t[5]) {
                l.blue = blue;
            }
        }
        l
    }

    pub fn is_black(&self) -> (r: bool)
        ensures
            r == (*self == black_led()),
    {
        self.red == 0 && self.green == 0 && self.blue == 0
    }

    /// The color with each channel scaled to `pct` percent, capped at 255.
    pub fn brightness(&self, pct: u32) -> (r: LED)
        ensures
            r == (LED {
                red: scale(self.red, pct as int),
                green: scale(self.green, pct as int),
                blue: scale(self.blue, pct as int),
            }),
    {
        LED {
            red: scale_channel(self.red, pct),
            green: scale_channel(self.green, pct),
            blue: scale_channel(self.blue, pct),
        }
    }

    /// The channel-wise mean, rounded down, of this color and `others`.
    pub fn mean(&self, others: Vec<LED>) -> (r: LED)
        ensures
            r == mean_led(*self, others@),
    {
        let ghost s = seq![*self] + others@;
        let mut red: u128 = self.red as u128;
        let mut green: u128 = self.green as u128;
        let mut blue: u128 = self.blue as u128;
        let mut i: usize = 0;
        assert(s.take(1) =~= seq![*self]);
        assert(sum_red(seq![*self].drop_last()) == 0);
        assert(sum_green(seq![*self].drop_last()) == 0);
        assert(sum_blue(seq![*self].drop_last()) == 0);
        while i < others.len()
            invariant
                s == seq![*self] + others@,
                i <= others.len(),
                red == sum_red(s.take(i as int + 1)),
                green == sum_green(s.take(i as int + 1)),
                blue == sum_blue(s.take(i as int + 1)),
                red <= 255 * (i + 1),
                green <= 255 * (i + 1),
                blue <= 255 * (i + 1),
            decreases others.len() - i,
        {
            let o = others[i];
            assert(s.take(i as int + 2).drop_last() =~= s.take(i as int + 1));
            assert(s.take(i as int + 2).last() == o);
            red = red + o.red as u128;
            green = green + o.green as u128;
            blue = blue + o.blue as u128;
            i += 1;
        }
        assert(s.take(others.len() as int + 1) =~= s);
        let n: u128 = others.len() as u128 + 1;
        assert(red / n <= 255 && green / n <= 255 && blue / n <= 255) by (nonlinear_arith)
            requires
                red <= 255 * n,
                green <= 255 * n,
                blue <= 255 * n,
                n >= 1,
        ;
        LED { red: (red / n) as u8, green: (green / n) as u8, blue: (blue / n) as u8 }
    }

    /// The color as six lowercase hexadecimal digits.
    pub fn to_string(&self) -> (r: String)
        ensures
            r@ == hex_rgb(self.red, self.green, self.blue),
    {
        crate::common::rgb_to_hex(self.red, self.green, self.blue)
    }

    /// Combines `other` into this color channel by channel with exclusive or.
    pub fn xor(&mut self, other: LED)
        ensures
            *final(self) == xor_led(*old(self), other),
    {
        self.red = self.red ^ other.red;
        self.green = self.green ^ other.green;
        self.blue = self.blue ^ other.blue;
    }
}

impl From<PlayColor> for LED {
    fn from(value: PlayColor) -> (r: LED) {
        let (red, green, blue) = value.rgb();
        LED { red, green, blue }
    }
}

impl vstd::std_specs::convert::FromSpecImpl<PlayColor> for LED {
    open spec fn obeys_from_spec() -> bool {
        true
    }

    open spec fn from_spec(v: PlayColor) -> LED {
        rgb_led(v.spec_rgb())
    }
}


/// `c` with each channel scaled to `pct` percent.
pub open spec fn dim(c: LED, pct: int) -> LED {
    LED { red: scale(c.red, pct), green: scale(c.green, pct), blue: scale(c.blue, pct) }
}

/// Brightness, in percent, of the play animation at step `k` of its cycle.
pub open spec fn flow_level(k: int) -> int {
    if k == 0 {
        90
    } else if k == 1 {
        80
    } else if k == 2 {
        60
    } else if k == 3 {
        40
    } else if k == 4 {
        100
    } else if k == 5 {
        30
    } else if k == 6 {
        60
    } else {
        70
    }
}

/// Cell `i` of the ring averaged with its two neighbours.
pub open spec fn smooth(leds: Seq<LED>, i: int) -> LED {
    let prev = if i > 0 { leds[i - 1] } else { leds[leds.len() - 1] };
    let next = if i < leds.len() - 1 { leds[i + 1] } else { leds[0] };
    mean_led(leds[i], seq![prev, next])
}

/// The color of a player's own cell.
pub open spec fn player_led(p: Player) -> LED {
    rgb_led(p.color.spec_rgb())
}

/// The dimmed color of the band around a player.
pub open spec fn band_led(p: Player) -> LED {
    dim(player_led(p), BAND_BRIGHTNESS as int)
}

/// A player's own cell shows, except for the off half of the fast blink while it jumps.
pub open spec fn head_visible(p: Player, counter: int) -> bool {
    p.jump == 0 || counter % (BLINK_JUMP as int) < (BLINK_JUMP as int) / 2
}

/// The band shows while the player is on the ground, and blinks slowly while it recovers.
pub open spec fn band_visible(p: Player, counter: int) -> bool {
    p.jump == 0 && (p.jump_recover == 0 || counter % (BLINK_RECOVER as int) < (BLINK_RECOVER as int) / 2)
}

/// Overlay value `v` of cell `i` after the band cells at distances `1 .. k - 1`
/// on both sides of player `p` were XORed with its band color.
pub open spec fn band_at(v: LED, p: Player, i: int, k: nat) -> LED
    decreases k,
{
    if k <= 1 {
        v
    } else {
        let prev = band_at(v, p, i, (k - 1) as nat);
        let d = k - 1;
        let a = if wrap_add(p.pos.0 as int, d) == i { xor_led(prev, band_led(p)) } else { prev };
        if wrap_add(p.pos.0 as int, -d) == i { xor_led(a, band_led(p)) } else { a }
    }
}

/// Overlay value `v` of cell `i` after player `p` was painted into it.
pub open spec fn paint(v: LED, p: Player, i: int, counter: int) -> LED {
    let h = if head_visible(p, counter) && p.pos.0 == i { xor_led(v, player_led(p)) } else { v };
    if band_visible(p, counter) {
        band_at(h, p, i, (3 * p.lifes + 1) as nat)
    } else {
        h
    }
}

/// Cell `i` of the overlay of the players `ps`, painted in order onto black.
pub open spec fn overlay(ps: Seq<Player>, i: int, counter: int) -> LED
    decreases ps.len(),
{
    if ps.len() == 0 {
        black_led()
    } else {
        paint(overlay(ps.drop_last(), i, counter), ps.last(), i, counter)
    }
}

/// Whether one of `ps` is cell `j`.
pub open spec fn marked(ps: Seq<Position>, j: int) -> bool {
    exists|k: int| 0 <= k < ps.len() && (#[trigger] ps[k]).0 == j
}

/// The text of a ring: six hexadecimal digits per cell, in cell order.
pub open spec fn snapshot(leds: Seq<LED>) -> Seq<char>
    decreases leds.len(),
{
    if leds.len() == 0 {
        Seq::empty()
    } else {
        snapshot(leds.drop_last()) + hex_rgb(leds.last().red, leds.last().green, leds.last().blue)
    }
}

/// The text of a ring holds six hexadecimal digits per cell.
pub proof fn lemma_snapshot_len(leds: Seq<LED>)
    ensures
        snapshot(leds).len() == 6 * leds.len(),
    decreases leds.len(),
{
    if leds.len() > 0 {
        lemma_snapshot_len(leds.drop_last());
    }
}

/// The cell a negative or large offset lands on is the same after reducing it modulo the ring.
proof fn lemma_wrap_add_mod(p: int, d: int)
    ensures
        wrap_add(p, d % (LED_COUNT as int)) == wrap_add(p, d),
        wrap_add(p, -(d % (LED_COUNT as int))) == wrap_add(p, -d),
{
    let n = LED_COUNT as int;
    vstd::arithmetic::div_mod::lemma_fundamental_div_mod(d, n);
    vstd::arithmetic::div_mod::lemma_mod_multiples_vanish(-(d / n), -(d % n), n);
    assert(-d == n * (-(d / n)) + (-(d % n))) by (nonlinear_arith)
        requires
            d == n * (d / n) + (d % n),
    ;
}

/// The idle animation applied to `leds` at tick `counter`.
pub open spec fn rainbow_leds(leds: Seq<LED>, counter: int) -> Seq<LED> {
    let injected = leds.update(counter % (LED_COUNT as int), hue_led((counter % 192) as u8));
    Seq::new(
        LED_COUNT as nat,
        |i: int| dim(smooth(injected, (i + 1) % (LED_COUNT as int)), RAINBOW_BRIGHTNESS as int),
    )
}

/// The play animation applied to `leds` at tick `counter`.
pub open spec fn flow_leds(leds: Seq<LED>, counter: int) -> Seq<LED> {
    Seq::new(LED_COUNT as nat, |i: int| dim(smooth(leds, i), flow_level(counter / 100 % 8)))
}

/// A white bar over the cells below `counter`, black elsewhere.
pub open spec fn bar_leds(counter: int) -> Seq<LED> {
    Seq::new(LED_COUNT as nat, |i: int| if i < counter { white_led() } else { black_led() })
}

/// The winner screen at countdown `counter`.
pub open spec fn winner_leds(winner: PlayColor, counter: int) -> Seq<LED> {
    Seq::new(
        LED_COUNT as nat,
        |i: int|
            if i == counter % (LED_COUNT as int) || i == (counter + LED_COUNT / 2) % (LED_COUNT as int) {
                black_led()
            } else {
                dim(rgb_led(winner.spec_rgb()), abs_diff(counter % 10, 5) * 20)
            },
    )
}

/// The signup screen for the joined colors `players` at countdown `counter`.
pub open spec fn signup_leds(players: Seq<PlayColor>, counter: int) -> Seq<LED> {
    Seq::new(
        LED_COUNT as nat,
        |i: int|
            if i / (LED_COUNT as int / 6) < players.len() {
                rgb_led(players[i / (LED_COUNT as int / 6)].spec_pastel())
            } else if i < counter {
                white_led()
            } else {
                black_led()
            },
    )
}

/// The ring `leds` after the player layer of `ps` was merged into it.
pub open spec fn players_drawn(leds: Seq<LED>, ps: Seq<Player>, counter: int) -> Seq<LED> {
    Seq::new(
        leds.len(),
        |j: int| if overlay(ps, j, counter) != black_led() { overlay(ps, j, counter) } else { leds[j] },
    )
}

/// XORs the band color into the two cells at distance `dist` from player `p`.
fn xor_band_cells(ov: &mut Vec<LED>, p: Player, dimc: LED, dist: u128, Ghost(headed): Ghost<Seq<LED>>)
    requires
        old(ov)@.len() == LED_COUNT,
        p.pos.wf(),
        dimc == band_led(p),
        1 <= dist,
        forall|j: int| 0 <= j < LED_COUNT ==> #[trigger] old(ov)@[j] == band_at(headed[j], p, j, dist as nat),
    ensures
        final(ov)@.len() == LED_COUNT,
        forall|j: int| 0 <= j < LED_COUNT ==> #[trigger] final(ov)@[j] == band_at(headed[j], p, j, (dist + 1) as nat),
{
    let d = (dist % (LED_COUNT as u128)) as i32;
    let a = p.pos.add(d);
    let b = p.pos.sub(d);
    proof {
        lemma_wrap_add_mod(p.pos.0 as int, dist as int);
    }
    let ghost prev = ov@;
    let mut ca = ov[a.0];
    ca.xor(dimc);
    ov.set(a.0, ca);
    let mut cb = ov[b.0];
    cb.xor(dimc);
    ov.set(b.0, cb);
    assert forall|j: int| 0 <= j < LED_COUNT implies #[trigger] ov@[j] == band_at(headed[j], p, j, (dist + 1) as nat) by {
        assert(prev[j] == band_at(headed[j], p, j, dist as nat));
    }
}

/// The persistent ring of colors and the tick counter that drives its animations.
#[derive(Debug)]
pub struct Display {
    pub leds: Vec<LED>,
    pub counter: usize,
}

impl Display {
    pub open spec fn wf(self) -> bool {
        self.leds@.len() == LED_COUNT
    }

    /// An all-white ring at tick zero.
    pub fn new() -> (r: Display)
        ensures
            r.wf(),
            r.counter == 0,
            forall|i: int| 0 <= i < LED_COUNT ==> #[trigger] r.leds@[i] == white_led(),
    {
        let mut leds: Vec<LED> = Vec::new();
        let mut i: usize = 0;
        while i < LED_COUNT
            invariant
                i <= LED_COUNT,
                leds@.len() == i,
                forall|k: int| 0 <= k < i ==> #[trigger] leds@[k] == white_led(),
            decreases LED_COUNT - i,
        {
            leds.push(LED::white());
            i += 1;
        }
        Display { leds, counter: 0 }
    }

    /// The ring as text: six lowercase hexadecimal digits per cell, in cell order.
    pub fn get_circle(&self) -> (r: String)
        ensures
            r@ == snapshot(self.leds@),
            r@.len() == 6 * self.leds@.len(),
    {
        proof {
            lemma_snapshot_len(self.leds@);
        }
        let mut s = String::new();
        let mut i: usize = 0;
        while i < self.leds.len()
            invariant
                i <= self.leds.len(),
                s@ == snapshot(self.leds@.take(i as int)),
            decreases self.leds.len() - i,
        {
            let l = self.leds[i];
            assert(self.leds@.take(i as int + 1).drop_last() =~= self.leds@.take(i as int));
            push_hex_byte(&mut s, l.red);
            push_hex_byte(&mut s, l.green);
            push_hex_byte(&mut s, l.blue);
            assert(s@ =~= snapshot(self.leds@.take(i as int)) + hex_rgb(l.red, l.green, l.blue));
            i += 1;
        }
        assert(self.leds@.take(self.leds.len() as int) =~= self.leds@);
        s
    }

    /// The player layer. Onto an all-black overlay each player in turn XORs
    /// its color into its own cell (unless it blinks off while jumping) and,
    /// while on the ground, a dimmed copy of its color into the cells at
    /// distances 1 to `3 * lifes` on both sides (blinking while it
    /// recovers). Every cell of the overlay that is not black then replaces
    /// the cell of the ring; the other cells keep what they held.
    pub fn draw_players(&mut self, players: Vec<Player>)
        requires
            old(self).wf(),
            forall|k: int| 0 <= k < players@.len() ==> (#[trigger] players@[k]).pos.wf(),
        ensures
            final(self).wf(),
            final(self).counter == old(self).counter,
            final(self).leds@ == players_drawn(old(self).leds@, players@, old(self).counter as int),
    {
        let ghost cnt = self.counter as int;
        let mut ov: Vec<LED> = Vec::new();
        let mut i: usize = 0;
        while i < LED_COUNT
            invariant
                i <= LED_COUNT,
                ov@.len() == i,
                forall|k: int| 0 <= k < i ==> #[trigger] ov@[k] == black_led(),
            decreases LED_COUNT - i,
        {
            ov.push(LED::black());
            i += 1;
        }
        let mut pi: usize = 0;
        while pi < players.len()
            invariant
                self.wf(),
                self.counter == old(self).counter,
                self.leds@ == old(self).leds@,
                cnt == self.counter as int,
                pi <= players.len(),
                ov@.len() == LED_COUNT,
                forall|k: int| 0 <= k < players@.len() ==> (#[trigger] players@[k]).pos.wf(),
                forall|j: int| 0 <= j < LED_COUNT ==> #[trigger] ov@[j] == overlay(players@.take(pi as int), j, cnt),
            decreases players.len() - pi,
        {
            let p = players[pi];
            assert(players@.take(pi as int + 1).drop_last() =~= players@.take(pi as int));
            assert(players@.take(pi as int + 1).last() == p);
            let ghost base = ov@;
            let col = LED::from(p.color);
            if p.jump == 0 || self.counter % BLINK_JUMP < BLINK_JUMP / 2 {
                let mut cur = ov[p.pos.0];
                cur.xor(col);
                ov.set(p.pos.0, cur);
            }
            let ghost headed = ov@;
            assert(forall|j: int| 0 <= j < LED_COUNT ==> #[trigger] headed[j] == (if head_visible(p, cnt) && p.pos.0 == j {
                xor_led(base[j], player_led(p))
            } else {
                base[j]
            }));
            if p.jump == 0 && (p.jump_recover == 0 || self.counter % BLINK_RECOVER < BLINK_RECOVER / 2) {
                let dimc = col.brightness(BAND_BRIGHTNESS);
                let limit: u128 = (p.lifes as u128) * 3;
                let mut dist: u128 = 1;
                while dist <= limit
                    invariant
                        ov@.len() == LED_COUNT,
                        p.pos.wf(),
                        dimc == band_led(p),
                        limit == 3 * p.lifes,
                        1 <= dist <= limit + 1,
                        forall|j: int| 0 <= j < LED_COUNT ==> #[trigger] ov@[j] == band_at(headed[j], p, j, dist as nat),
                    decreases limit + 1 - dist,
                {
                    xor_band_cells(&mut ov, p, dimc, dist, Ghost(headed));
                    dist += 1;
                }
                assert(dist == limit + 1);
            }
            pi += 1;
        }
        assert(players@.take(players.len() as int) =~= players@);
        let mut i: usize = 0;
        while i < LED_COUNT
            invariant
                self.wf(),
                self.counter == old(self).counter,
                i <= LED_COUNT,
                ov@.len() == LED_COUNT,
                forall|j: int| 0 <= j < LED_COUNT ==> #[trigger] ov@[j] == overlay(players@, j, cnt),
                cnt == old(self).counter as int,
                forall|j: int| 0 <= j < LED_COUNT ==> #[trigger] self.leds@[j] == if j < i && ov@[j] != black_led() {
                    ov@[j]
                } else {
                    old(self).leds@[j]
                },
            decreases LED_COUNT - i,
        {
            if !ov[i].is_black() {
                self.leds.set(i, ov[i]);
            }
            i += 1;
        }
        assert(self.leds@ =~= players_drawn(old(self).leds@, players@, old(self).counter as int));
    }

    /// Paints cell `j` white for every obstacle on it.
    pub fn draw_obstacles(&mut self, obstacles: Vec<Position>)
        requires
            old(self).wf(),
            forall|k: int| 0 <= k < obstacles@.len() ==> (#[trigger] obstacles@[k]).wf(),
        ensures
            final(self).wf(),
            final(self).counter == old(self).counter,
            forall|j: int| 0 <= j < LED_COUNT ==> #[trigger] final(self).leds@[j] == if marked(obstacles@, j) {
                white_led()
            } else {
                old(self).leds@[j]
            },
    {
        let mut i: usize = 0;
        while i < obstacles.len()
            invariant
                self.wf(),
                self.counter == old(self).counter,
                i <= obstacles.len(),
                forall|k: int| 0 <= k < obstacles@.len() ==> (#[trigger] obstacles@[k]).wf(),
                forall|j: int| 0 <= j < LED_COUNT ==> #[trigger] self.leds@[j] == if marked(obstacles@.take(i as int), j) {
                    white_led()
                } else {
                    old(self).leds@[j]
                },
            decreases obstacles.len() - i,
        {
            let o = obstacles[i];
            self.leds.set(o.0, LED::white());
            proof {
                let t = obstacles@.take(i as int + 1);
                assert forall|j: int| 0 <= j < LED_COUNT implies #[trigger] self.leds@[j] == if marked(t, j) {
                    white_led()
                } else {
                    old(self).leds@[j]
                } by {
                    if marked(obstacles@.take(i as int), j) {
                        let k = choose|k: int| 0 <= k < i && (#[trigger] obstacles@.take(i as int)[k]).0 == j;
                        assert(t[k].0 == j);
                    }
                    if j == o.0 {
                        assert(t[i as int].0 == j);
                    } else if marked(t, j) {
                        let k = choose|k: int| 0 <= k < t.len() && (#[trigger] t[k]).0 == j;
                        assert(obstacles@.take(i as int)[k].0 == j);
                    }
                }
            }
            i += 1;
        }
        assert(obstacles@.take(obstacles.len() as int) =~= obstacles@);
    }

    /// Paints cell `j` with the bonus color for every bonus on it.
    pub fn draw_boni(&mut self, boni: Vec<Position>)
        requires
            old(self).wf(),
            forall|k: int| 0 <= k < boni@.len() ==> (#[trigger] boni@[k]).wf(),
        ensures
            final(self).wf(),
            final(self).counter == old(self).counter,
            forall|j: int| 0 <= j < LED_COUNT ==> #[trigger] final(self).leds@[j] == if marked(boni@, j) {
                bonus_led()
            } else {
                old(self).leds@[j]
            },
    {
        let mut i: usize = 0;
        while i < boni.len()
            invariant
                self.wf(),
                self.counter == old(self).counter,
                i <= boni.len(),
                forall|k: int| 0 <= k < boni@.len() ==> (#[trigger] boni@[k]).wf(),
                forall|j: int| 0 <= j < LED_COUNT ==> #[trigger] self.leds@[j] == if marked(boni@.take(i as int), j) {
                    bonus_led()
                } else {
                    old(self).leds@[j]
                },
            decreases boni.len() - i,
        {
            let b = boni[i];
            self.leds.set(b.0, LED { red: 0x22, green: 0xff, blue: 0x22 });
            proof {
                let t = boni@.take(i as int + 1);
                assert forall|j: int| 0 <= j < LED_COUNT implies #[trigger] self.leds@[j] == if marked(t, j) {
                    bonus_led()
                } else {
                    old(self).leds@[j]
                } by {
                    if marked(boni@.take(i as int), j) {
                        let k = choose|k: int| 0 <= k < i && (#[trigger] boni@.take(i as int)[k]).0 == j;
                        assert(t[k].0 == j);
                    }
                    if j == b.0 {
                        assert(t[i as int].0 == j);
                    } else if marked(t, j) {
                        let k = choose|k: int| 0 <= k < t.len() && (#[trigger] t[k]).0 == j;
                        assert(boni@.take(i as int)[k].0 == j);
                    }
                }
            }
            i += 1;
        }
        assert(boni@.take(boni.len() as int) =~= boni@);
    }

    /// The two neighbours of cell `i`, wrapping around the ring.
    fn neighbors(&self, i: usize) -> (r: (LED, LED))
        requires
            self.wf(),
            i < LED_COUNT,
        ensures
            r.0 == (if i > 0 { self.leds@[i - 1] } else { self.leds@[self.leds@.len() - 1] }),
            r.1 == (if i < self.leds@.len() - 1 { self.leds@[i + 1] } else { self.leds@[0] }),
    {
        let prev = if i > 0 {
            self.leds[i - 1]
        } else {
            self.leds[self.leds.len() - 1]
        };
        let next = if i < self.leds.len() - 1 {
            self.leds[i + 1]
        } else {
            self.leds[0]
        };
        (prev, next)
    }

    /// Cell `i` averaged with its two neighbours.
    fn mean_leds(&self, i: usize) -> (r: LED)
        requires
            self.wf(),
            i < LED_COUNT,
        ensures
            r == smooth(self.leds@, i as int),
    {
        let (p, n) = self.neighbors(i);
        let others = vec![p, n];
        assert(others@ =~= seq![p, n]);
        self.leds[i].mean(others)
    }

    /// The ring averaged cell by cell and scaled to `pct` percent; cell `i`
    /// of the result is cell `(i + shift) % N` of the averaged ring.
    fn filtered(&self, pct: u32, shift: usize) -> (r: Vec<LED>)
        requires
            self.wf(),
            shift < LED_COUNT,
        ensures
            r@.len() == LED_COUNT,
            forall|i: int| 0 <= i < LED_COUNT ==> #[trigger] r@[i] == dim(
                smooth(self.leds@, (i + shift) % (LED_COUNT as int)),
                pct as int,
            ),
    {
        let mut r: Vec<LED> = Vec::new();
        let mut i: usize = 0;
        while i < LED_COUNT
            invariant
                self.wf(),
                shift < LED_COUNT,
                i <= LED_COUNT,
                r@.len() == i,
                forall|k: int| 0 <= k < i ==> #[trigger] r@[k] == dim(
                    smooth(self.leds@, (k + shift) % (LED_COUNT as int)),
                    pct as int,
                ),
            decreases LED_COUNT - i,
        {
            let m = self.mean_leds((i + shift) % LED_COUNT);
            r.push(m.brightness(pct));
            i += 1;
        }
        r
    }

    /// The idle animation: a hue-cycling pixel enters at cell `counter % N`,
    /// the ring is averaged and dimmed, then rotated by one cell.
    pub fn rainbow(&mut self)
        requires
            old(self).wf(),
        ensures
            final(self).wf(),
            final(self).counter == old(self).counter,
            final(self).leds@ == rainbow_leds(old(self).leds@, old(self).counter as int),
    {
        let c = self.counter;
        self.leds.set(c % LED_COUNT, LED::from_hue((c % 192) as u8));
        self.leds = self.filtered(RAINBOW_BRIGHTNESS, 1);
        assert(self.leds@ =~= rainbow_leds(old(self).leds@, old(self).counter as int));
    }

    /// The play animation: the ring averaged cell by cell and scaled to a
    /// brightness that cycles with the tick counter.
    pub fn flow(&mut self)
        requires
            old(self).wf(),
        ensures
            final(self).wf(),
            final(self).counter == old(self).counter,
            final(self).leds@ == flow_leds(old(self).leds@, old(self).counter as int),
    {
        let k = self.counter / 100 % 8;
        let bright: u32 = if k == 0 {
            90
        } else if k == 1 {
            80
        } else if k == 2 {
            60
        } else if k == 3 {
            40
        } else if k == 4 {
            100
        } else if k == 5 {
            30
        } else if k == 6 {
            60
        } else {
            70
        };
        self.leds = self.filtered(bright, 0);
        assert(self.leds@ =~= flow_leds(old(self).leds@, old(self).counter as int));
    }

    /// A white bar over the cells below `counter`; the rest is black.
    pub fn game_draw(&mut self, counter: usize)
        ensures
            final(self).wf(),
            final(self).counter == old(self).counter,
            final(self).leds@ == bar_leds(counter as int),
    {
        let mut leds: Vec<LED> = Vec::new();
        let mut i: usize = 0;
        while i < LED_COUNT
            invariant
                i <= LED_COUNT,
                leds@.len() == i,
                forall|k: int| 0 <= k < i ==> #[trigger] leds@[k] == if k < counter {
                    white_led()
                } else {
                    black_led()
                },
            decreases LED_COUNT - i,
        {
            if i < counter {
                leds.push(LED::white());
            } else {
                leds.push(LED::black());
            }
            i += 1;
        }
        self.leds = leds;
        assert(self.leds@ =~= bar_leds(counter as int));
    }

    /// The whole ring in the winner's color at a brightness that falls and
    /// rises with `counter`, with two black cells half a ring apart.
    pub fn game_winner(&mut self, winner: PlayColor, counter: usize)
        ensures
            final(self).wf(),
            final(self).counter == old(self).counter,
            final(self).leds@ == winner_leds(winner, counter as int),
    {
        let m = counter % 10;
        let pct: u32 = if m >= 5 { ((m - 5) * 20) as u32 } else { ((5 - m) * 20) as u32 };
        let c = LED::from(winner).brightness(pct);
        let mut leds: Vec<LED> = Vec::new();
        let mut i: usize = 0;
        while i < LED_COUNT
            invariant
                i <= LED_COUNT,
                leds@.len() == i,
                c == dim(rgb_led(winner.spec_rgb()), abs_diff(counter as int % 10, 5) * 20),
                forall|k: int| 0 <= k < i ==> #[trigger] leds@[k] == c,
            decreases LED_COUNT - i,
        {
            leds.push(c);
            i += 1;
        }
        let a = counter % LED_COUNT;
        let b = (a + LED_COUNT / 2) % LED_COUNT;
        assert(b == (counter as int + LED_COUNT / 2) % (LED_COUNT as int)) by {
            vstd::arithmetic::div_mod::lemma_fundamental_div_mod(counter as int, LED_COUNT as int);
            vstd::arithmetic::div_mod::lemma_mod_multiples_vanish(
                counter as int / (LED_COUNT as int),
                a + LED_COUNT / 2,
                LED_COUNT as int,
            );
        }
        leds.set(a, LED::black());
        leds.set(b, LED::black());
        self.leds = leds;
        assert(self.leds@ =~= winner_leds(winner, counter as int));
    }

    /// The signup screen: the bar of `game_draw`, then one block of `N / 6`
    /// cells per joined player, in join order, in the player's pastel color.
    pub fn game_signup(&mut self, players: Vec<PlayColor>, counter: usize)
        ensures
            final(self).wf(),
            final(self).counter == old(self).counter,
            final(self).leds@ == signup_leds(players@, counter as int),
    {
        self.game_draw(counter);
        let player_width = LED_COUNT / 6;
        assert(player_width == LED_COUNT / 6);
        let mut i: usize = 0;
        while i < players.len() && i < 6
            invariant
                self.wf(),
                self.counter == old(self).counter,
                i <= 6,
                i <= players@.len(),
                player_width == LED_COUNT / 6,
                forall|k: int| 0 <= k < LED_COUNT ==> #[trigger] self.leds@[k] == if k / (
                LED_COUNT as int / 6) < i {
                    rgb_led(players@[k / (LED_COUNT as int / 6)].spec_pastel())
                } else if k < counter {
                    white_led()
                } else {
                    black_led()
                },
            decreases 6 - i,
        {
            let (r, g, b) = players[i].pastel();
            let c = LED { red: r, green: g, blue: b };
            let mut j: usize = 0;
            while j < player_width
                invariant
                    self.wf(),
                    self.counter == old(self).counter,
                    i < 6,
                    i < players@.len(),
                    j <= player_width,
                    player_width == LED_COUNT / 6,
                    c == rgb_led(players@[i as int].spec_pastel()),
                    forall|k: int| 0 <= k < LED_COUNT ==> #[trigger] self.leds@[k] == if k / (
                    LED_COUNT as int / 6) < i || (k / (LED_COUNT as int / 6) == i && k % (LED_COUNT as int / 6) < j) {
                        rgb_led(players@[k / (LED_COUNT as int / 6)].spec_pastel())
                    } else if k < counter {
                        white_led()
                    } else {
                        black_led()
                    },
                decreases player_width - j,
            {
                proof {
                    i_j_cell(i as int, j as int);
                }
                let ghost before = self.leds@;
                self.leds.set(i * player_width + j, c);
                proof {
                    assert(LED_COUNT as int / 6 == 48);
                    assert forall|k: int| 0 <= k < LED_COUNT && k != i * 48 + j implies !(#[trigger] (k / 48) == i && k % 48 == j) by {
                        assert(k == 48 * (k / 48) + k % 48) by (nonlinear_arith);
                    }
                }
                j += 1;
            }
            i += 1;
        }
        assert forall|k: int| 0 <= k < LED_COUNT implies #[trigger] self.leds@[k] == if k / (
        LED_COUNT as int / 6) < players@.len() {
            rgb_led(players@[k / (LED_COUNT as int / 6)].spec_pastel())
        } else if k < counter {
            white_led()
        } else {
            black_led()
        } by {
            assert(LED_COUNT as int / 6 == 48);
            assert(k / 48 < 6);
        }
        assert(self.leds@ =~= signup_leds(players@, counter as int));
    }

    /// Advances the tick counter, wrapping at the largest value.
    pub fn tick(&mut self)
        ensures
            final(self).leds@ == old(self).leds@,
            final(self).counter == (if old(self).counter < usize::MAX { old(self).counter + 1 } else { 0 }),
    {
        self.counter = self.counter.wrapping_add(1);
    }

    /// Back to tick zero with an all-black ring.
    pub fn reset(&mut self)
        ensures
            final(self).wf(),
            final(self).counter == 0,
            final(self).leds@ == bar_leds(0),
    {
        self.counter = 0;
        self.game_draw(0);
    }
}

pub open spec fn abs_diff(a: int, b: int) -> int {
    if a >= b { a - b } else { b - a }
}

/// Cell `i * w + j` of the ring, with `w = N / 6`, lies in block `i` at offset `j`.
proof fn i_j_cell(i: int, j: int)
    requires
        0 <= i < 6,
        0 <= j < LED_COUNT / 6,
    ensures
        (i * (LED_COUNT as int / 6) + j) / (LED_COUNT as int / 6) == i,
        (i * (LED_COUNT as int / 6) + j) % (LED_COUNT as int / 6) == j,
        i * (LED_COUNT as int / 6) + j < LED_COUNT,
{
    assert(LED_COUNT as int / 6 == 48);
    assert((i * 48 + j) / 48 == i && (i * 48 + j) % 48 == j) by (nonlinear_arith)
        requires
            0 <= i < 6,
            0 <= j < 48,
    ;
}

} // verus!
