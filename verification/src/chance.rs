//! Everything that is left to chance.

use rand::Rng;
use vstd::prelude::*;

verus! {

/// `std::char::from_u32`: the character with this code point. There is none
/// above `0x10ffff` and none for a surrogate.
pub assume_specification[ std::char::from_u32 ](i: u32) -> (c: Option<char>)
    ensures
        match c {
            Some(c) => c as u32 == i,
            None => i > 0x10ffff || 0xd800 <= i <= 0xdfff,
        },
;

/// `rand::Rng::gen_range` of `rand::thread_rng()` on `0..n`: some number
/// below `n`. Which one it is, is left to chance; the call panics on an empty
/// range.
#[verifier::external_body]
pub(crate) fn draw_below(n: usize) -> (r: usize)
    requires
        n > 0,
    ensures
        r < n,
{
    rand::thread_rng().gen_range(0..n)
}

/// `rand::Rng::gen_range` of `rand::thread_rng()` on `low..=high`: some
/// number from `low` to `high`. Which one it is, is left to chance; the call
/// panics on an empty range.
#[verifier::external_body]
fn draw_between(low: u32, high: u32) -> (r: u32)
    requires
        low <= high,
    ensures
        low <= r <= high,
{
    rand::thread_rng().gen_range(low..=high)
}

/// The code points from the first to the second are square characters that
/// can mark a player. There are several such spans.
pub open spec fn emoji_span_of(kind: int) -> Option<(u32, u32)> {
    if kind == 0 {
        Some((0x1f600, 0x1f64f))
    } else if kind == 1 {
        Some((0x1f910, 0x1f93a))
    } else if kind == 2 {
        Some((0x1f442, 0x1f4f7))
    } else {
        None
    }
}

/// The character lies in one of the spans.
pub open spec fn is_emoji(c: char) -> bool {
    exists|kind: int|
        (#[trigger] emoji_span_of(kind)) is Some && emoji_span_of(kind).unwrap().0 <= c as u32
            && c as u32 <= emoji_span_of(kind).unwrap().1
}

/// The span with the given number.
pub fn emoji_span(kind: usize) -> (span: Option<(u32, u32)>)
    ensures
        span == emoji_span_of(kind as int),
{
    match kind {
        0 => Some((0x1f600, 0x1f64f)),
        1 => Some((0x1f910, 0x1f93a)),
        2 => Some((0x1f442, 0x1f4f7)),
        _ => None,
    }
}

/// The character with the drawn code point, if there is a span with the drawn
/// number, and a space if there is none.
pub fn drawn_emoji(kind: usize, code: u32) -> (c: char)
    requires
        kind < 3 ==> code <= 0x10ffff && !(0xd800 <= code <= 0xdfff),
    ensures
        c as u32 == if kind < 3 {
            code
        } else {
            ' ' as u32
        },
{
    if kind < 3 {
        match std::char::from_u32(code) {
            Some(c) => c,
            None => ' ',
        }
    } else {
        ' '
    }
}

/// A random character that can mark a player.
pub fn random_emoji() -> (c: char)
    ensures
        is_emoji(c),
{
    let kind: usize = draw_below(3);
    assert(emoji_span_of(kind as int) is Some);
    match emoji_span(kind) {
        Some((low, high)) => drawn_emoji(kind, draw_between(low, high)),
        None => drawn_emoji(kind, 0),
    }
}

/// The characters that can mark a player are those from U+1F600 to U+1F64F,
/// from U+1F910 to U+1F93A and from U+1F442 to U+1F4F7. Each of the three
/// spans has a number, and there is no other.
pub proof fn law_emoji(c: char, kind: int)
    ensures
        is_emoji(c) <==> {
            ||| 0x1f600 <= c as u32 <= 0x1f64f
            ||| 0x1f910 <= c as u32 <= 0x1f93a
            ||| 0x1f442 <= c as u32 <= 0x1f4f7
        },
        emoji_span_of(kind) is Some <==> 0 <= kind < 3,
        emoji_span_of(kind) is Some && emoji_span_of(kind).unwrap().0 <= c as u32
            <= emoji_span_of(kind).unwrap().1 ==> is_emoji(c),
{
    assert(emoji_span_of(0) == Some((0x1f600u32, 0x1f64fu32)));
    assert(emoji_span_of(1) == Some((0x1f910u32, 0x1f93au32)));
    assert(emoji_span_of(2) == Some((0x1f442u32, 0x1f4f7u32)));
}

} // verus!
