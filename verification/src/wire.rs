//! The wire format: one line of ASCII text per pixel,
//! `PX <x> <y> <rrggbbaa>` followed by a line feed.
//!
//! The coordinates are written in decimal without leading zeros, the four
//! channels as two lowercase hexadecimal digits each. A fully transparent
//! pixel has no command at all.

use vstd::prelude::*;
use crate::pixel::Pixel;

verus! {

/// ASCII `P`.
pub const LETTER_P: u8 = 80;

/// ASCII `X`.
pub const LETTER_X: u8 = 88;

/// ASCII space, which separates the fields of a command.
pub const SPACE: u8 = 32;

/// ASCII line feed, which ends a command.
pub const LINE_FEED: u8 = 10;

/// ASCII `0`.
pub const DIGIT_ZERO: u8 = 48;

/// ASCII `a`.
pub const LETTER_A: u8 = 97;

/// The number of hexadecimal digits that render one pixel.
pub const COLOR_DIGITS: usize = 8;

/// The decimal rendering of `n`, most significant digit first, with no
/// leading zero (zero itself is the single digit `0`).
pub open spec fn decimal(n: nat) -> Seq<u8>
    decreases n,
{
    if n < 10 {
        seq![(DIGIT_ZERO + n) as u8]
    } else {
        decimal(n / 10).push((DIGIT_ZERO + n % 10) as u8)
    }
}

/// The lowercase hexadecimal digit for a value below sixteen.
pub open spec fn hex_digit(v: nat) -> u8
    recommends
        v < 16,
{
    if v < 10 {
        (DIGIT_ZERO + v) as u8
    } else {
        (LETTER_A + v - 10) as u8
    }
}

/// One channel as exactly two hexadecimal digits, the high nibble first.
pub open spec fn hex_pair(channel: u8) -> Seq<u8> {
    seq![hex_digit(channel as nat / 16), hex_digit(channel as nat % 16)]
}

/// The eight hexadecimal digits of a pixel, in the order red, green, blue,
/// alpha.
pub open spec fn color_hex(pixel: Pixel) -> Seq<u8> {
    hex_pair(pixel.r) + hex_pair(pixel.g) + hex_pair(pixel.b) + hex_pair(pixel.a)
}

/// The command that paints `pixel` at `(x, y)`.
pub open spec fn wire_command(x: nat, y: nat, pixel: Pixel) -> Seq<u8> {
    seq![LETTER_P, LETTER_X, SPACE] + decimal(x) + seq![SPACE] + decimal(y) + seq![SPACE]
        + color_hex(pixel) + seq![LINE_FEED]
}

/// What `encode` yields: nothing for a fully transparent pixel, else the
/// command.
pub open spec fn encoding(x: nat, y: nat, pixel: Pixel) -> Option<Seq<u8>> {
    if pixel.a == 0 {
        None
    } else {
        Some(wire_command(x, y, pixel))
    }
}

/// The value of a lowercase hexadecimal digit, if `c` is one.
pub open spec fn hex_value(c: u8) -> Option<u8> {
    if DIGIT_ZERO <= c && c < DIGIT_ZERO + 10 {
        Some((c - DIGIT_ZERO) as u8)
    } else if LETTER_A <= c && c < LETTER_A + 6 {
        Some((c - LETTER_A + 10) as u8)
    } else {
        None
    }
}

/// The channel that two hexadecimal digits spell, if both are digits.
pub open spec fn pair_value(high: u8, low: u8) -> Option<u8> {
    match (hex_value(high), hex_value(low)) {
        (Some(h), Some(l)) => Some((h * 16 + l) as u8),
        _ => None,
    }
}

/// The pixel that eight hexadecimal digits spell. Anything but eight
/// lowercase hexadecimal digits spells none.
pub open spec fn color_of_hex(digits: Seq<u8>) -> Option<Pixel> {
    if digits.len() != COLOR_DIGITS {
        None
    } else {
        match (
            pair_value(digits[0], digits[1]),
            pair_value(digits[2], digits[3]),
            pair_value(digits[4], digits[5]),
            pair_value(digits[6], digits[7]),
        ) {
            (Some(r), Some(g), Some(b), Some(a)) => Some(Pixel { r, g, b, a }),
            _ => None,
        }
    }
}

/// The part of a command that holds the colour: the eight bytes before the
/// final line feed.
pub open spec fn hex_portion(command: Seq<u8>) -> Seq<u8>
    recommends
        command.len() > COLOR_DIGITS,
{
    command.subrange(command.len() - 1 - COLOR_DIGITS, command.len() - 1)
}

/// The colour that a command carries, read back from its hexadecimal part.
pub open spec fn command_color(command: Seq<u8>) -> Option<Pixel> {
    if command.len() <= COLOR_DIGITS {
        None
    } else {
        color_of_hex(hex_portion(command))
    }
}

/// A decimal rendering is made of ASCII digits, at least one and for a
/// 32-bit value at most ten, and begins with a zero only if the value is
/// zero.
pub proof fn lemma_decimal_shape(n: nat)
    ensures
        decimal(n).len() >= 1,
        n <= u32::MAX ==> decimal(n).len() <= 10,
        forall|i: int|
            0 <= i < decimal(n).len() ==> DIGIT_ZERO <= #[trigger] decimal(n)[i] < DIGIT_ZERO + 10,
        n > 0 ==> decimal(n)[0] != DIGIT_ZERO,
    decreases n,
{
    if n >= 10 {
        lemma_decimal_shape(n / 10);
    }
    if n <= u32::MAX {
        assert(pow10(10) == 10_000_000_000) by {
            reveal_with_fuel(pow10, 11);
        }
        lemma_decimal_digits_bound(n, 10);
    }
}

/// A value below `10^k` has at most `k` decimal digits.
proof fn lemma_decimal_digits_bound(n: nat, k: nat)
    requires
        k >= 1,
        n < pow10(k),
    ensures
        decimal(n).len() <= k,
    decreases n,
{
    if n >= 10 {
        if k == 1 {
            assert(pow10(1) == 10) by {
                reveal_with_fuel(pow10, 2);
            }
        } else {
            assert(pow10(k) == 10 * pow10((k - 1) as nat));
            lemma_decimal_digits_bound(n / 10, (k - 1) as nat);
        }
    }
}

/// Ten to the power `k`.
spec fn pow10(k: nat) -> nat
    decreases k,
{
    if k == 0 {
        1
    } else {
        10 * pow10((k - 1) as nat)
    }
}

/// Reading back the two digits of a channel gives the channel.
pub proof fn lemma_pair_round_trip(channel: u8)
    ensures
        pair_value(hex_pair(channel)[0], hex_pair(channel)[1]) == Some(channel),
{
    let high = channel as nat / 16;
    let low = channel as nat % 16;
    assert(high < 16 && low < 16);
    assert(hex_value(hex_digit(high)) == Some(high as u8));
    assert(hex_value(hex_digit(low)) == Some(low as u8));
    assert(high * 16 + low == channel);
}

/// The hexadecimal digits of any pixel spell that pixel again: the four
/// channels survive the rendering exactly.
pub proof fn lemma_color_round_trip(pixel: Pixel)
    ensures
        color_hex(pixel).len() == COLOR_DIGITS,
        color_of_hex(color_hex(pixel)) == Some(pixel),
{
    lemma_pair_round_trip(pixel.r);
    lemma_pair_round_trip(pixel.g);
    lemma_pair_round_trip(pixel.b);
    lemma_pair_round_trip(pixel.a);
}

/// The colour part of a command is the rendering of its pixel, so reading
/// it back recovers the red, green, blue and alpha bytes that were encoded,
/// whatever the coordinates.
pub proof fn lemma_command_round_trip(x: nat, y: nat, pixel: Pixel)
    ensures
        hex_portion(wire_command(x, y, pixel)) == color_hex(pixel),
        command_color(wire_command(x, y, pixel)) == Some(pixel),
{
    lemma_color_round_trip(pixel);
    let head = seq![LETTER_P, LETTER_X, SPACE] + decimal(x) + seq![SPACE] + decimal(y)
        + seq![SPACE];
    let command = wire_command(x, y, pixel);
    assert(command == head + color_hex(pixel) + seq![LINE_FEED]);
    assert(hex_portion(command) =~= color_hex(pixel));
}

/// A command is one line: it opens with `PX` and a space, its only line
/// feed is its last byte, and for 32-bit coordinates it is between sixteen
/// and thirty-four bytes long.
pub proof fn lemma_command_is_one_line(x: nat, y: nat, pixel: Pixel)
    ensures
        wire_command(x, y, pixel).len() == 14 + decimal(x).len() + decimal(y).len(),
        wire_command(x, y, pixel).len() >= 16,
        x <= u32::MAX && y <= u32::MAX ==> wire_command(x, y, pixel).len() <= 34,
        wire_command(x, y, pixel)[0] == LETTER_P,
        wire_command(x, y, pixel)[1] == LETTER_X,
        wire_command(x, y, pixel)[2] == SPACE,
        wire_command(x, y, pixel).last() == LINE_FEED,
        forall|i: int|
            0 <= i < wire_command(x, y, pixel).len() - 1 ==> #[trigger] wire_command(
                x,
                y,
                pixel,
            )[i] != LINE_FEED,
{
    lemma_decimal_shape(x);
    lemma_decimal_shape(y);
    lemma_hex_is_not_line_feed(pixel);
    let dx = decimal(x);
    let dy = decimal(y);
    let command = wire_command(x, y, pixel);
    assert forall|i: int| 0 <= i < command.len() - 1 implies #[trigger] command[i]
        != LINE_FEED by {
        if i < 3 {
        } else if i < 3 + dx.len() {
            assert(command[i] == dx[i - 3]);
        } else if i == 3 + dx.len() {
        } else if i < 4 + dx.len() + dy.len() {
            assert(command[i] == dy[i - 4 - dx.len()]);
        } else if i == 4 + dx.len() + dy.len() {
        } else {
            assert(command[i] == color_hex(pixel)[i - 5 - dx.len() - dy.len()]);
        }
    }
}

/// No hexadecimal digit of a pixel is a line feed.
proof fn lemma_hex_is_not_line_feed(pixel: Pixel)
    ensures
        color_hex(pixel).len() == COLOR_DIGITS,
        forall|i: int| 0 <= i < COLOR_DIGITS ==> #[trigger] color_hex(pixel)[i] != LINE_FEED,
{
    let hex = color_hex(pixel);
    assert forall|i: int| 0 <= i < COLOR_DIGITS implies #[trigger] hex[i] != LINE_FEED by {
        let channel = if i < 2 {
            pixel.r
        } else if i < 4 {
            pixel.g
        } else if i < 6 {
            pixel.b
        } else {
            pixel.a
        };
        assert(hex[i] == hex_pair(channel)[i % 2]);
        assert(channel as nat / 16 < 16 && channel as nat % 16 < 16);
    }
}

/// Appends the decimal rendering of `n`.
fn push_decimal(out: &mut Vec<u8>, n: u32)
    ensures
        final(out)@ == old(out)@ + decimal(n as nat),
    decreases n,
{
    if n >= 10 {
        push_decimal(out, n / 10);
    }
    let digit: u8 = (n % 10) as u8;
    out.push(DIGIT_ZERO + digit);
    assert(out@ =~= old(out)@ + decimal(n as nat));
}

/// The lowercase hexadecimal digit for a value below sixteen.
fn hex_digit_of(v: u8) -> (c: u8)
    requires
        v < 16,
    ensures
        c == hex_digit(v as nat),
{
    if v < 10 {
        DIGIT_ZERO + v
    } else {
        LETTER_A + (v - 10)
    }
}

/// Appends the two hexadecimal digits of one channel.
fn push_hex_pair(out: &mut Vec<u8>, channel: u8)
    ensures
        final(out)@ == old(out)@ + hex_pair(channel),
{
    let high: u8 = hex_digit_of(channel / 16);
    let low: u8 = hex_digit_of(channel % 16);
    out.push(high);
    out.push(low);
    assert(out@ =~= old(out)@ + hex_pair(channel));
}

/// Encodes one pixel update.
///
/// A fully transparent pixel (`a == 0`) has no encoding. Any other pixel is
/// rendered as `PX`, the two coordinates in decimal and the four channels in
/// hexadecimal, closed by a line feed.
pub fn encode(x: u32, y: u32, pixel: Pixel) -> (out: Option<Vec<u8>>)
    ensures
        pixel.a == 0 <==> out is None,
        out matches Some(bytes) ==> bytes@ == wire_command(x as nat, y as nat, pixel),
        encoding(x as nat, y as nat, pixel) == match out {
            Some(bytes) => Some(bytes@),
            None => None,
        },
{
    if pixel.a == 0 {
        return None;
    }
    let mut bytes: Vec<u8> = Vec::new();
    bytes.push(LETTER_P);
    bytes.push(LETTER_X);
    bytes.push(SPACE);
    push_decimal(&mut bytes, x);
    bytes.push(SPACE);
    push_decimal(&mut bytes, y);
    bytes.push(SPACE);
    let ghost head = bytes@;
    push_hex_pair(&mut bytes, pixel.r);
    push_hex_pair(&mut bytes, pixel.g);
    push_hex_pair(&mut bytes, pixel.b);
    push_hex_pair(&mut bytes, pixel.a);
    bytes.push(LINE_FEED);
    proof {
        assert(head =~= seq![LETTER_P, LETTER_X, SPACE] + decimal(x as nat) + seq![SPACE]
            + decimal(y as nat) + seq![SPACE]);
        assert(bytes@ =~= head + color_hex(pixel) + seq![LINE_FEED]);
    }
    Some(bytes)
}

/// The value of one lowercase hexadecimal digit.
fn hex_value_of(c: u8) -> (v: Option<u8>)
    ensures
        v == hex_value(c),
{
    if DIGIT_ZERO <= c && c < DIGIT_ZERO + 10 {
        Some(c - DIGIT_ZERO)
    } else if LETTER_A <= c && c < LETTER_A + 6 {
        Some(c - LETTER_A + 10)
    } else {
        None
    }
}

/// The channel that two hexadecimal digits spell.
fn pair_value_of(high: u8, low: u8) -> (v: Option<u8>)
    ensures
        v == pair_value(high, low),
{
    match (hex_value_of(high), hex_value_of(low)) {
        (Some(h), Some(l)) => Some(h * 16 + l),
        _ => None,
    }
}

/// Reads a pixel back from its eight hexadecimal digits.
///
/// Returns the pixel exactly when `digits` is eight lowercase hexadecimal
/// digits, and nothing otherwise.
pub fn decode_color(digits: &[u8]) -> (pixel: Option<Pixel>)
    ensures
        pixel == color_of_hex(digits@),
{
    if digits.len() != COLOR_DIGITS {
        return None;
    }
    let r = pair_value_of(digits[0], digits[1]);
    let g = pair_value_of(digits[2], digits[3]);
    let b = pair_value_of(digits[4], digits[5]);
    let a = pair_value_of(digits[6], digits[7]);
    match (r, g, b, a) {
        (Some(r), Some(g), Some(b), Some(a)) => Some(Pixel { r, g, b, a }),
        _ => None,
    }
}

/// Reads the colour of a command back from its hexadecimal part, the eight
/// bytes before the final byte.
///
/// For every command that `encode` produces this is the pixel that was
/// encoded.
pub fn decode_command_color(command: &[u8]) -> (pixel: Option<Pixel>)
    ensures
        pixel == command_color(command@),
        forall|x: nat, y: nat, p: Pixel|
            command@ == wire_command(x, y, p) ==> pixel == Some(p),
{
    proof {
        assert forall|x: nat, y: nat, p: Pixel| command@ == wire_command(x, y, p) implies
            command_color(command@) == Some(p) by {
            lemma_command_round_trip(x, y, p);
        }
    }
    let len: usize = command.len();
    if len <= COLOR_DIGITS {
        return None;
    }
    let digits = vstd::slice::slice_subrange(command, len - 1 - COLOR_DIGITS, len - 1);
    decode_color(digits)
}

} // verus!
