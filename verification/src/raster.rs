//! Page selection and RGBA raster buffers.

use vstd::prelude::*;

use crate::error::Error;

verus! {

/// One Typst page rendered as tightly packed RGBA8 pixels.
#[derive(Clone, Debug, Eq, PartialEq)]
pub struct RasterPage {
    /// Pixel width.
    pub width: u32,
    /// Pixel height.
    pub height: u32,
    /// Tightly packed row-major RGBA8 bytes.
    pub pixels: Vec<u8>,
}

/// Select zero-based page `page` of a document with `pages` pages.
pub fn select_page(page: usize, pages: usize) -> (selected: Result<usize, Error>)
    ensures
        page < pages ==> selected == Ok::<usize, Error>(page),
        page >= pages ==> (selected matches Err(Error::MissingPage { page: p, pages: n }) && p == page && n == pages),
{
    if page < pages {
        Ok(page)
    } else {
        Err(Error::MissingPage { page, pages })
    }
}

/// Pixels in a `width` by `height` raster, saturating at the platform limit.
pub open spec fn pixel_count_of(width: u32, height: u32) -> usize {
    if width * height > usize::MAX {
        usize::MAX
    } else {
        (width * height) as usize
    }
}

/// Pixels in a `width` by `height` raster, saturating at the platform limit.
pub fn pixel_count(width: u32, height: u32) -> (count: usize)
    ensures
        count == pixel_count_of(width, height),
        width * height <= usize::MAX ==> count == width * height,
        width * height > usize::MAX ==> count == usize::MAX,
{
    let width = width as usize;
    let height = height as usize;
    match width.checked_mul(height) {
        Some(count) => count,
        None => usize::MAX,
    }
}

/// The decimal digit character for `d` (below ten).
pub open spec fn digit_char(d: nat) -> char {
    if d == 0 {
        '0'
    } else if d == 1 {
        '1'
    } else if d == 2 {
        '2'
    } else if d == 3 {
        '3'
    } else if d == 4 {
        '4'
    } else if d == 5 {
        '5'
    } else if d == 6 {
        '6'
    } else if d == 7 {
        '7'
    } else if d == 8 {
        '8'
    } else {
        '9'
    }
}

/// Decimal digits of `n`, most significant first, without leading zeros.
pub open spec fn decimal(n: nat) -> Seq<char>
    decreases n,
{
    if n < 10 {
        seq![digit_char(n)]
    } else {
        decimal(n / 10).push(digit_char(n % 10))
    }
}

/// Why an RGBA buffer of `actual` bytes does not fit its page.
pub open spec fn rgba_mismatch(actual: usize, expected: usize) -> Seq<char> {
    "RGBA buffer has "@ + decimal(actual as nat) + " bytes; expected "@ + decimal(expected as nat)
}

fn digit_text(d: usize) -> (text: &'static str)
    requires
        d < 10,
    ensures
        text@ == seq![digit_char(d as nat)],
{
    proof {
        reveal_strlit("0");
        reveal_strlit("1");
        reveal_strlit("2");
        reveal_strlit("3");
        reveal_strlit("4");
        reveal_strlit("5");
        reveal_strlit("6");
        reveal_strlit("7");
        reveal_strlit("8");
        reveal_strlit("9");
    }
    if d == 0 {
        "0"
    } else if d == 1 {
        "1"
    } else if d == 2 {
        "2"
    } else if d == 3 {
        "3"
    } else if d == 4 {
        "4"
    } else if d == 5 {
        "5"
    } else if d == 6 {
        "6"
    } else if d == 7 {
        "7"
    } else if d == 8 {
        "8"
    } else {
        "9"
    }
}

/// `n` written in decimal.
pub fn decimal_text(n: usize) -> (text: String)
    ensures
        text@ == decimal(n as nat),
    decreases n,
{
    if n < 10 {
        digit_text(n).to_owned()
    } else {
        let mut text = decimal_text(n / 10);
        text.append(digit_text(n % 10));
        text
    }
}

/// The text of an RGBA size mismatch, with both sizes in decimal.
fn rgba_mismatch_text(actual: usize, expected: usize) -> (text: String)
    ensures
        text@ == rgba_mismatch(actual, expected),
{
    let mut text = "RGBA buffer has ".to_owned();
    text.append(decimal_text(actual).as_str());
    text.append(" bytes; expected ");
    text.append(decimal_text(expected).as_str());
    proof {
        reveal_strlit("RGBA buffer has ");
        reveal_strlit(" bytes; expected ");
    }
    text
}

/// The text of an `Error::Raster`, if that is what `error` is.
pub open spec fn raster_message(error: Error) -> Option<Seq<char>> {
    match error {
        Error::Raster(message) => Some(message@),
        _ => None,
    }
}

/// Accept a rendered buffer as a page when it holds exactly four bytes per
/// pixel.
pub fn rgba_page(width: u32, height: u32, pixels: Vec<u8>) -> (page: Result<RasterPage, Error>)
    ensures
        pixel_count_of(width, height) * 4 > usize::MAX ==> (page matches Err(error)
            && raster_message(error) == Some("RGBA buffer size overflows the platform integer"@)),
        pixel_count_of(width, height) * 4 <= usize::MAX && pixels@.len() != pixel_count_of(width, height) * 4
            ==> (page matches Err(error) && raster_message(error) == Some(
            rgba_mismatch(pixels@.len() as usize, (pixel_count_of(width, height) * 4) as usize),
        )),
        pixel_count_of(width, height) * 4 <= usize::MAX && pixels@.len() == pixel_count_of(width, height) * 4
            ==> (page matches Ok(raster) && raster.width == width && raster.height == height
            && raster.pixels@ == pixels@),
{
    let count = pixel_count(width, height);
    let expected = match count.checked_mul(4) {
        Some(expected) => expected,
        None => {
            return Err(Error::Raster("RGBA buffer size overflows the platform integer".to_owned()));
        },
    };
    if pixels.len() != expected {
        return Err(Error::Raster(rgba_mismatch_text(pixels.len(), expected)));
    }
    Ok(RasterPage { width, height, pixels })
}

/// A raster of `width` by `height` pixels counts their product, up to the
/// platform limit; the count does not depend on the orientation.
pub proof fn lemma_pixel_count_is_the_product(width: u32, height: u32)
    ensures
        width * height <= usize::MAX ==> pixel_count_of(width, height) == width * height,
        width * height > usize::MAX ==> pixel_count_of(width, height) == usize::MAX,
        pixel_count_of(width, height) == pixel_count_of(height, width),
{
    assert(width * height == height * width) by (nonlinear_arith);
}

/// The number a string of decimal digits denotes, most significant first.
pub open spec fn decimal_value(digits: Seq<char>) -> int
    decreases digits.len(),
{
    if digits.len() == 0 {
        0
    } else {
        decimal_value(digits.drop_last()) * 10 + (digits.last() as int - '0' as int)
    }
}

/// `decimal(n)` is made of the characters '0' to '9', has no leading zero,
/// and denotes `n`.
pub proof fn lemma_decimal_denotes(n: nat)
    ensures
        decimal(n).len() > 0,
        forall|i: int| 0 <= i < decimal(n).len() ==> '0' <= #[trigger] decimal(n)[i] <= '9',
        decimal(n)[0] == '0' ==> n == 0,
        decimal_value(decimal(n)) == n,
    decreases n,
{
    if n >= 10 {
        lemma_decimal_denotes(n / 10);
        let d = (n % 10) as nat;
        let digits = decimal(n);
        assert(digits.drop_last() == decimal(n / 10));
        assert(digits.last() == digit_char(d));
        assert(digit_char(d) as int - '0' as int == d);
        assert(decimal(n / 10)[0] == digits[0]);
        assert(n / 10 > 0);
        assert forall|i: int| 0 <= i < digits.len() implies '0' <= #[trigger] digits[i] <= '9' by {
            if i < digits.len() - 1 {
                assert(digits[i] == decimal(n / 10)[i]);
            }
        }
    } else {
        assert(digit_char(n) as int - '0' as int == n);
        assert(decimal_value(decimal(n)) == decimal_value(decimal(n).drop_last()) * 10 + (decimal(n).last() as int
            - '0' as int));
        assert(decimal(n).drop_last().len() == 0);
    }
}

} // verus!
