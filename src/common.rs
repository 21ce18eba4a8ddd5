//! Constants, player colors and the hexadecimal text form of colors.

use vstd::prelude::*;
use vstd::string::*;

verus! {

/// Number of cells (LEDs) on the ring.
pub const LED_COUNT: usize = 288;

/// Ticks per second.
pub const FREQUENCY: usize = 50;

/// The game that the platform currently hosts.
#[derive(Debug, Clone, Copy, PartialEq, Eq, Structural)]
pub enum Game {
    Idle,
    Snake,
    Drop,
}

/// The six colors a player can take; a color identifies a player in a match.
#[derive(Debug, Clone, Copy, PartialEq, Eq, Structural, Hash)]
pub enum PlayColor {
    Red,
    Green,
    Blue,
    Yellow,
    Cyan,
    Magenta,
}

/// Lowercase hexadecimal digit of `n`, for `n < 16`.
pub open spec fn hex_digit(n: u8) -> char {
    if n < 10 {
        (('0' as u8) + n) as char
    } else {
        (('a' as u8) + (n - 10)) as char
    }
}

/// The two lowercase hexadecimal digits of a byte.
pub open spec fn hex_byte(b: u8) -> Seq<char> {
    seq![hex_digit(b / 16), hex_digit(b % 16)]
}

/// The six hexadecimal digits of an RGB triple.
pub open spec fn hex_rgb(r: u8, g: u8, b: u8) -> Seq<char> {
    hex_byte(r) + hex_byte(g) + hex_byte(b)
}

/// One-character string holding the hexadecimal digit of `n`.
fn hex_digit_str(n: u8) -> (r: &'static str)
    requires
        n < 16,
    ensures
        r@ == seq![hex_digit(n)],
{
    proof {
        reveal_strlit("0");
        reveal_strlit("1");
        reveal_strlit("2");
        reveal_strlit("3");
        reveal_strlit("4");
        reveal_strlit("5");
        reveal_strlit("6");
        reveal_strlit("7");
        reveal_strlit("8");
        reveal_strlit("9");
        reveal_strlit("a");
        reveal_strlit("b");
        reveal_strlit("c");
        reveal_strlit("d");
        reveal_strlit("e");
        reveal_strlit("f");
    }
    let r = match n {
        0 => "0",
        1 => "1",
        2 => "2",
        3 => "3",
        4 => "4",
        5 => "5",
        6 => "6",
        7 => "7",
        8 => "8",
        9 => "9",
        10 => "a",
        11 => "b",
        12 => "c",
        13 => "d",
        14 => "e",
        _ => "f",
    };
    assert(r@ =~= seq![hex_digit(n)]);
    r
}

/// Appends the two hexadecimal digits of `b` to `s`.
pub fn push_hex_byte(s: &mut String, b: u8)
    ensures
        final(s)@ == old(s)@ + hex_byte(b),
{
    s.append(hex_digit_str(b / 16));
    s.append(hex_digit_str(b % 16));
    assert(final(s)@ =~= old(s)@ + hex_byte(b));
}

/// The six hexadecimal digits of an RGB triple, as a string.
pub fn rgb_to_hex(r: u8, g: u8, b: u8) -> (s: String)
    ensures
        s@ == hex_rgb(r, g, b),
{
    let mut s = String::new();
    push_hex_byte(&mut s, r);
    push_hex_byte(&mut s, g);
    push_hex_byte(&mut s, b);
    assert(s@ =~= hex_rgb(r, g, b));
    s
}

impl PlayColor {
    /// The full-strength RGB value of the color.
    pub open spec fn spec_rgb(self) -> (u8, u8, u8) {
        match self {
            PlayColor::Red => (0xff, 0x00, 0x00),
            PlayColor::Green => (0x00, 0xff, 0x00),
            PlayColor::Blue => (0x00, 0x00, 0xff),
            PlayColor::Yellow => (0xff, 0xff, 0x00),
            PlayColor::Cyan => (0x00, 0xff, 0xff),
            PlayColor::Magenta => (0xff, 0x00, 0xff),
        }
    }

    /// The pastel RGB value of the color.
    pub open spec fn spec_pastel(self) -> (u8, u8, u8) {
        match self {
            PlayColor::Red => (0xff, 0x88, 0x88),
            PlayColor::Green => (0x88, 0xff, 0x88),
            PlayColor::Blue => (0x88, 0x88, 0xff),
            PlayColor::Yellow => (0xff, 0xff, 0x88),
            PlayColor::Cyan => (0x88, 0xff, 0xff),
            PlayColor::Magenta => (0xff, 0x88, 0xff),
        }
    }

    pub fn rgb(&self) -> (r: (u8, u8, u8))
        ensures
            r == self.spec_rgb(),
    {
        match self {
            PlayColor::Red => (0xff, 0x00, 0x00),
            PlayColor::Green => (0x00, 0xff, 0x00),
            PlayColor::Blue => (0x00, 0x00, 0xff),
            PlayColor::Yellow => (0xff, 0xff, 0x00),
            PlayColor::Cyan => (0x00, 0xff, 0xff),
            PlayColor::Magenta => (0xff, 0x00, 0xff),
        }
    }

    pub fn pastel(&self) -> (r: (u8, u8, u8))
        ensures
            r == self.spec_pastel(),
    {
        match self {
            PlayColor::Red => (0xff, 0x88, 0x88),
            PlayColor::Green => (0x88, 0xff, 0x88),
            PlayColor::Blue => (0x88, 0x88, 0xff),
            PlayColor::Yellow => (0xff, 0xff, 0x88),
            PlayColor::Cyan => (0x88, 0xff, 0xff),
            PlayColor::Magenta => (0xff, 0x88, 0xff),
        }
    }

    /// The color as six lowercase hexadecimal digits ("ff0000" for red).
    pub fn to_hex(&self) -> (r: String)
        ensures
            r@ == hex_rgb(self.spec_rgb().0, self.spec_rgb().1, self.spec_rgb().2),
    {
        let (r, g, b) = self.rgb();
        rgb_to_hex(r, g, b)
    }

    /// The pastel variant as six lowercase hexadecimal digits ("ff8888" for red).
    pub fn to_hex_pastel(&self) -> (r: String)
        ensures
            r@ == hex_rgb(self.spec_pastel().0, self.spec_pastel().1, self.spec_pastel().2),
    {
        let (r, g, b) = self.pastel();
        rgb_to_hex(r, g, b)
    }

    /// All six colors, in declaration order.
    pub fn all() -> (r: Vec<PlayColor>)
        ensures
            r@ == seq![
                PlayColor::Red,
                PlayColor::Green,
                PlayColor::Blue,
                PlayColor::Yellow,
                PlayColor::Cyan,
                PlayColor::Magenta,
            ],
    {
        let r = vec![
            PlayColor::Red,
            PlayColor::Green,
            PlayColor::Blue,
            PlayColor::Yellow,
            PlayColor::Cyan,
            PlayColor::Magenta,
        ];
        assert(r@ =~= seq![
            PlayColor::Red,
            PlayColor::Green,
            PlayColor::Blue,
            PlayColor::Yellow,
            PlayColor::Cyan,
            PlayColor::Magenta,
        ]);
        r
    }
}

} // verus!
