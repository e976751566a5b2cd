//! Bottle colours, their hex notation and the colour constants of the game.
use vstd::prelude::*;

use crate::position::Pos;
use crate::text::push_char;

verus! {

/// A colour as blue, green and red channels, in the order of the camera's
/// BGR pixels.
pub type Bgr = (u8, u8, u8);

pub const SCRCPY_CONTROL_PORT: u16 = 27183;
pub const SCRCPY_MAX_SIZE: u32 = 800;
pub const SCRCPY_MAX_FPS: u32 = 15;
pub const SCRCPY_VIDEO_BIT_RATE: u32 = 2_000_000;

/// Where the start button of the game is.
pub fn start_button_pos() -> (r: Pos)
    ensures
        r == Pos(186, 605),
{
    Pos(186, 605)
}

/// Where the retry button of a level is.
pub fn retry_button_pos() -> (r: Pos)
    ensures
        r == Pos(324, 57),
{
    Pos(324, 57)
}

/// Where the text of a failed level shows.
pub fn failed_level_text_pos() -> (r: Pos)
    ensures
        r == Pos(170, 647),
{
    Pos(170, 647)
}

/// Where the banner of new features shows.
pub fn new_features_color_pos() -> (r: Pos)
    ensures
        r == Pos(200, 88),
{
    Pos(200, 88)
}

/// The colour of the text of a failed level, `#f8d224`.
pub fn failed_level_color() -> (r: Bgr)
    ensures
        r == (0x24u8, 0xd2u8, 0xf8u8),
{
    (0x24, 0xd2, 0xf8)
}

/// The colour of the next-level button, `#B2CE39`.
pub fn next_level_button_color() -> (r: Bgr)
    ensures
        r == (0x39u8, 0xceu8, 0xb2u8),
{
    (0x39, 0xce, 0xb2)
}

/// The colour of the popup that offers a reward, `#fbdcb1`.
pub fn no_thank_you_rewards_color() -> (r: Bgr)
    ensures
        r == (0xb1u8, 0xdcu8, 0xfbu8),
{
    (0xb1, 0xdc, 0xfb)
}

/// The colour of the banner of new features, `#F6BE33`.
pub fn new_features_color() -> (r: Bgr)
    ensures
        r == (0x33u8, 0xbeu8, 0xf6u8),
{
    (0x33, 0xbe, 0xf6)
}

pub const Y_MEASURE_OFFSET: i32 = 0;
pub const X_MEASURE_OFFSET: i32 = 0;
/// Largest squared colour distance at which two pixels count as the same colour.
pub const COLOR_DISTANCE_THRESHOLD_SQ: u32 = 2500;

/// The colour of one layer in a bottle.
#[derive(Debug, Clone, Copy, PartialEq, Eq, Structural, Hash, PartialOrd, Ord)]
pub enum BottleColor {
    Empty,
    Mystery,
    /// A visible colour, as blue, green and red channels.
    Fill(u8, u8, u8),
}

/// The value of a hexadecimal digit, if `c` is one.
pub open spec fn hex_digit(c: char) -> Option<nat> {
    if '0' <= c && c <= '9' {
        Some((c as nat - '0' as nat) as nat)
    } else if 'a' <= c && c <= 'f' {
        Some((c as nat - 'a' as nat + 10) as nat)
    } else if 'A' <= c && c <= 'F' {
        Some((c as nat - 'A' as nat + 10) as nat)
    } else {
        None
    }
}

/// A two-character field of a hex colour, as `u8::from_str_radix(_, 16)`
/// reads it: two hex digits, or a `+` sign and one hex digit.
pub open spec fn hex_field(a: char, b: char) -> Option<nat> {
    if hex_digit(a) is Some && hex_digit(b) is Some {
        Some(hex_digit(a)->0 * 16 + hex_digit(b)->0)
    } else if a == '+' && hex_digit(b) is Some {
        Some(hex_digit(b)->0)
    } else {
        None
    }
}

/// `s` reads as a colour `#rrggbb`: at least seven characters, the first one
/// ASCII, followed by three two-character hex fields.
pub open spec fn is_hex_color(s: Seq<char>) -> bool {
    &&& s.len() >= 7
    &&& (s[0] as u32) < 128
    &&& hex_field(s[1], s[2]) is Some
    &&& hex_field(s[3], s[4]) is Some
    &&& hex_field(s[5], s[6]) is Some
}

/// The channels `(b, g, r)` written in a hex colour `#rrggbb`.
pub open spec fn spec_bgr_from_hex(s: Seq<char>) -> Bgr {
    (
        hex_field(s[5], s[6])->0 as u8,
        hex_field(s[3], s[4])->0 as u8,
        hex_field(s[1], s[2])->0 as u8,
    )
}

/// The lowercase hex digit for `v < 16`.
pub open spec fn spec_hex_char(v: u8) -> char {
    if v < 10 {
        (('0' as u8) + v) as char
    } else {
        (('a' as u8) + v - 10) as char
    }
}

/// The two lowercase hex digits of a byte.
pub open spec fn spec_hex_byte(v: u8) -> Seq<char> {
    seq![spec_hex_char(v / 16), spec_hex_char(v % 16)]
}

/// The text of a colour: `E`, `?`, or `#rrggbb` in lowercase.
pub open spec fn spec_to_hex(c: BottleColor) -> Seq<char> {
    match c {
        BottleColor::Empty => seq!['E'],
        BottleColor::Mystery => seq!['?'],
        BottleColor::Fill(b, g, r) => seq!['#'] + spec_hex_byte(r) + spec_hex_byte(g)
            + spec_hex_byte(b),
    }
}

/// The ten named colours of the game, in the order of `BottleColor::values`.
pub open spec fn spec_palette() -> Seq<BottleColor> {
    seq![
        BottleColor::Fill(0x20, 0xdf, 0xfb),
        BottleColor::Fill(0x24, 0x1a, 0xdf),
        BottleColor::Fill(0x1e, 0xde, 0x46),
        BottleColor::Fill(0x33, 0xed, 0xa3),
        BottleColor::Fill(0xfe, 0xf8, 0x2c),
        BottleColor::Fill(0xfb, 0xb7, 0x52),
        BottleColor::Fill(0xf9, 0x4a, 0x19),
        BottleColor::Fill(0xd9, 0x00, 0x8c),
        BottleColor::Fill(0xcc, 0x12, 0xd2),
        BottleColor::Fill(0x1c, 0x7c, 0xf3),
    ]
}

/// The squared Euclidean distance between two pixels.
pub open spec fn spec_color_distance_sq(p: Bgr, t: Bgr) -> int {
    (p.0 - t.0) * (p.0 - t.0) + (p.1 - t.1) * (p.1 - t.1) + (p.2 - t.2) * (p.2 - t.2)
}

pub(crate) fn hex_digit_exec(c: char) -> (r: Option<u8>)
    ensures
        r is Some <==> hex_digit(c) is Some,
        r matches Some(v) ==> v as nat == hex_digit(c)->0 && v < 16,
{
    if '0' <= c && c <= '9' {
        Some((c as u8) - ('0' as u8))
    } else if 'a' <= c && c <= 'f' {
        Some((c as u8) - ('a' as u8) + 10)
    } else if 'A' <= c && c <= 'F' {
        Some((c as u8) - ('A' as u8) + 10)
    } else {
        None
    }
}

fn hex_field_exec(a: char, b: char) -> (r: u8)
    requires
        hex_field(a, b) is Some,
    ensures
        r as nat == hex_field(a, b)->0,
{
    let hb = hex_digit_exec(b);
    let lo = match hb {
        Some(v) => v,
        None => 0,
    };
    match hex_digit_exec(a) {
        Some(hi) => hi * 16 + lo,
        None => lo,
    }
}

fn hex_char(v: u8) -> (c: char)
    requires
        v < 16,
    ensures
        c == spec_hex_char(v),
{
    if v < 10 {
        (('0' as u8) + v) as char
    } else {
        (('a' as u8) + v - 10) as char
    }
}

fn push_hex_byte(s: &mut String, v: u8)
    ensures
        final(s)@ == old(s)@ + spec_hex_byte(v),
{
    push_char(s, hex_char(v / 16));
    push_char(s, hex_char(v % 16));
    proof {
        assert(final(s)@ =~= old(s)@ + spec_hex_byte(v));
    }
}

/// Reads the channels `(b, g, r)` of a hex colour `#rrggbb`.
pub fn vec3_from_hex(hex: &str) -> (r: Bgr)
    requires
        is_hex_color(hex@),
    ensures
        r == spec_bgr_from_hex(hex@),
{
    let r = hex_field_exec(hex.get_char(1), hex.get_char(2));
    let g = hex_field_exec(hex.get_char(3), hex.get_char(4));
    let b = hex_field_exec(hex.get_char(5), hex.get_char(6));
    (b, g, r)
}

/// Whether the pixel sampled at `failed_level_text_pos()` shows the text of a
/// failed level: its squared distance to `failed_level_color()` is at most
/// `COLOR_DISTANCE_THRESHOLD_SQ`.
pub fn has_failed_level(pixel: &Bgr) -> (r: bool)
    ensures
        r == (spec_color_distance_sq(*pixel, (0x24u8, 0xd2u8, 0xf8u8)) <= COLOR_DISTANCE_THRESHOLD_SQ),
{
    color_distance_sq(pixel, &failed_level_color()) <= COLOR_DISTANCE_THRESHOLD_SQ
}

/// The squared Euclidean distance between two pixels.
pub fn color_distance_sq(pixel: &Bgr, target: &Bgr) -> (r: u32)
    ensures
        r as int == spec_color_distance_sq(*pixel, *target),
{
    let b_diff = pixel.0 as i32 - target.0 as i32;
    let g_diff = pixel.1 as i32 - target.1 as i32;
    let r_diff = pixel.2 as i32 - target.2 as i32;
    assert(0 <= b_diff * b_diff <= 65025) by (nonlinear_arith)
        requires
            -255 <= b_diff <= 255,
    ;
    assert(0 <= g_diff * g_diff <= 65025) by (nonlinear_arith)
        requires
            -255 <= g_diff <= 255,
    ;
    assert(0 <= r_diff * r_diff <= 65025) by (nonlinear_arith)
        requires
            -255 <= r_diff <= 255,
    ;
    (b_diff * b_diff + g_diff * g_diff + r_diff * r_diff) as u32
}

impl BottleColor {
    /// The colour written as `#rrggbb`.
    pub fn from_hex(hex: &str) -> (r: Self)
        requires
            is_hex_color(hex@),
        ensures
            r == ({
                let c = spec_bgr_from_hex(hex@);
                BottleColor::Fill(c.0, c.1, c.2)
            }),
    {
        let v = vec3_from_hex(hex);
        BottleColor::Fill(v.0, v.1, v.2)
    }

    /// `E` for an empty layer, `?` for a mystery layer, `#rrggbb` otherwise.
    pub fn to_hex(&self) -> (r: String)
        ensures
            r@ == spec_to_hex(*self),
    {
        let mut s = String::new();
        match *self {
            BottleColor::Empty => {
                push_char(&mut s, 'E');
            },
            BottleColor::Mystery => {
                push_char(&mut s, '?');
            },
            BottleColor::Fill(b, g, r) => {
                push_char(&mut s, '#');
                push_hex_byte(&mut s, r);
                push_hex_byte(&mut s, g);
                push_hex_byte(&mut s, b);
            },
        }
        proof {
            assert(s@ =~= spec_to_hex(*self));
        }
        s
    }

    /// The pixel that stands for this colour: the failed-level background for
    /// an empty layer, black for a mystery layer.
    pub fn to_pixel_value(&self) -> (r: Bgr)
        ensures
            r == (match *self {
                BottleColor::Empty => (0x14u8, 0x1cu8, 0x33u8),
                BottleColor::Mystery => (0u8, 0u8, 0u8),
                BottleColor::Fill(b, g, r) => (b, g, r),
            }),
    {
        match *self {
            BottleColor::Empty => (0x14, 0x1c, 0x33),
            BottleColor::Mystery => (0, 0, 0),
            BottleColor::Fill(b, g, r) => (b, g, r),
        }
    }

    pub fn is_empty(&self) -> (r: bool)
        ensures
            r == (*self == BottleColor::Empty),
    {
        match *self {
            BottleColor::Empty => true,
            _ => false,
        }
    }

    /// `#fbdf20`
    pub fn yellow() -> (r: Self)
        ensures
            r == spec_palette()[0],
    {
        BottleColor::Fill(0x20, 0xdf, 0xfb)
    }

    /// `#df1a24`
    pub fn red() -> (r: Self)
        ensures
            r == spec_palette()[1],
    {
        BottleColor::Fill(0x24, 0x1a, 0xdf)
    }

    /// `#46de1e`
    pub fn green() -> (r: Self)
        ensures
            r == spec_palette()[2],
    {
        BottleColor::Fill(0x1e, 0xde, 0x46)
    }

    /// `#a3ed33`
    pub fn light_green() -> (r: Self)
        ensures
            r == spec_palette()[3],
    {
        BottleColor::Fill(0x33, 0xed, 0xa3)
    }

    /// `#2cf8fe`
    pub fn light_blue() -> (r: Self)
        ensures
            r == spec_palette()[4],
    {
        BottleColor::Fill(0xfe, 0xf8, 0x2c)
    }

    /// `#52b7fb`
    pub fn medium_blue() -> (r: Self)
        ensures
            r == spec_palette()[5],
    {
        BottleColor::Fill(0xfb, 0xb7, 0x52)
    }

    /// `#194af9`
    pub fn blue() -> (r: Self)
        ensures
            r == spec_palette()[6],
    {
        BottleColor::Fill(0xf9, 0x4a, 0x19)
    }

    /// `#8c00d9`
    pub fn purple() -> (r: Self)
        ensures
            r == spec_palette()[7],
    {
        BottleColor::Fill(0xd9, 0x00, 0x8c)
    }

    /// `#d212cc`
    pub fn pink() -> (r: Self)
        ensures
            r == spec_palette()[8],
    {
        BottleColor::Fill(0xcc, 0x12, 0xd2)
    }

    /// `#f37c1c`
    pub fn orange() -> (r: Self)
        ensures
            r == spec_palette()[9],
    {
        BottleColor::Fill(0x1c, 0x7c, 0xf3)
    }

    /// The ten named colours of the game.
    pub fn values() -> (r: Vec<Self>)
        ensures
            r@ == spec_palette(),
    {
        let v = vec![
            Self::yellow(),
            Self::red(),
            Self::green(),
            Self::light_green(),
            Self::light_blue(),
            Self::medium_blue(),
            Self::blue(),
            Self::purple(),
            Self::pink(),
            Self::orange(),
        ];
        proof {
            assert(v@ =~= spec_palette());
        }
        v
    }
}

} // verus!
