//! Theme colours: the RGB triple shown behind white text, and its CSS form.

use vstd::prelude::*;
use vstd::string::*;

verus! {

/// An RGB colour.
#[derive(Clone, Copy, Debug, PartialEq, Eq, Structural)]
pub struct ThemeColor {
    pub r: u8,
    pub g: u8,
    pub b: u8,
}

/// The sixteen lower-case hexadecimal digits, in order.
pub open spec fn hex_digits() -> Seq<char> {
    seq!['0', '1', '2', '3', '4', '5', '6', '7', '8', '9', 'a', 'b', 'c', 'd', 'e', 'f']
}

/// The two hexadecimal digits of one channel, high digit first.
pub open spec fn hex_pair(v: u8) -> Seq<char> {
    seq![hex_digits()[v as int / 16], hex_digits()[v as int % 16]]
}

/// The CSS hexadecimal notation of a colour: `#` and two digits per channel.
pub open spec fn hex_code(c: ThemeColor) -> Seq<char> {
    seq!['#'] + hex_pair(c.r) + hex_pair(c.g) + hex_pair(c.b)
}

fn push_hex_pair(out: &mut String, v: u8)
    ensures
        final(out)@ == old(out)@ + hex_pair(v),
{
    let digits = "0123456789abcdef";
    proof {
        reveal_strlit("0123456789abcdef");
        assert(digits@ =~= hex_digits());
    }
    let hi: usize = (v / 16) as usize;
    let lo: usize = (v % 16) as usize;
    let high = digits.substring_char(hi, hi + 1);
    let low = digits.substring_char(lo, lo + 1);
    out.append(high);
    out.append(low);
    proof {
        assert(final(out)@ =~= old(out)@ + hex_pair(v));
    }
}

impl ThemeColor {
    /// The fallback colour of a result page without a matching logo: `#303030`.
    pub fn default_color() -> (c: ThemeColor)
        ensures
            c == default_theme_color(),
    {
        ThemeColor { r: 0x30, g: 0x30, b: 0x30 }
    }

    /// The colour of a pixel, without its alpha.
    pub fn from_rgba(pixel: (u8, u8, u8, u8)) -> (c: ThemeColor)
        ensures
            c == (ThemeColor { r: pixel.0, g: pixel.1, b: pixel.2 }),
    {
        ThemeColor { r: pixel.0, g: pixel.1, b: pixel.2 }
    }

    /// The colour as a CSS hexadecimal string.
    pub fn to_hex(&self) -> (s: String)
        ensures
            s@ == hex_code(*self),
    {
        let mut s = String::from_str("#");
        proof {
            reveal_strlit("#");
            assert(s@ =~= seq!['#']);
        }
        push_hex_pair(&mut s, self.r);
        push_hex_pair(&mut s, self.g);
        push_hex_pair(&mut s, self.b);
        s
    }
}

/// The fixed fallback colour, a dark grey.
pub open spec fn default_theme_color() -> ThemeColor {
    ThemeColor { r: 0x30, g: 0x30, b: 0x30 }
}

/// The fallback colour is written `#303030`.
pub proof fn lemma_default_color_hex()
    ensures
        hex_code(default_theme_color()) == seq!['#', '3', '0', '3', '0', '3', '0'],
{
    assert(hex_code(default_theme_color()) =~= seq!['#', '3', '0', '3', '0', '3', '0']);
}

/// The contrast that white text needs against a theme colour: 7 to 1.
pub const MINIMUM_CONTRAST: u8 = 7;

/// The lightness that one darkening takes away, in percentage points.
pub const DARKEN_PERCENT: u8 = 1;

/// The number of darkenings after which a search for a theme colour ends.
pub const MAXIMUM_DARKENINGS: u8 = 100;

/// The width and height to which an image is sampled down.
pub const SAMPLE_SIDE: u32 = 1;

/// Why an image has no representative colour.
#[derive(Clone, Copy, Debug, PartialEq, Eq, Structural)]
pub enum ImageDecodeError {
    /// The image has no pixels.
    Empty,
    /// The pixel data is not four bytes for each pixel.
    WrongLength,
}

/// Why a search for a theme colour ended without one.
#[derive(Clone, Copy, Debug, PartialEq, Eq, Structural)]
pub enum ThemeError {
    /// The candidate is a colour that cannot be darkened.
    CannotDarken(ThemeColor),
    /// The contrast was still too low after the last darkening allowed.
    TooManyDarkenings,
}

/// The greatest channel of a colour.
pub open spec fn brightest_channel(c: ThemeColor) -> u8 {
    if c.r >= c.g && c.r >= c.b {
        c.r
    } else if c.g >= c.b {
        c.g
    } else {
        c.b
    }
}

/// The least channel of a colour.
pub open spec fn dimmest_channel(c: ThemeColor) -> u8 {
    if c.r <= c.g && c.r <= c.b {
        c.r
    } else if c.g <= c.b {
        c.g
    } else {
        c.b
    }
}

/// Whether a colour can be darkened. A colour cannot where its greatest
/// channel is 255 and its least channel is an odd number under 64, or a
/// number from 130 on that leaves 2 when divided by 4.
///
/// `css_colors` darkens by way of hue, saturation and lightness. With the
/// greatest and the least channel as fractions `max` and `min` of 255, the
/// saturation of a light colour is `(max - min) / (2 - max - min)`, which is
/// 1 for a greatest channel of 255. In the 32-bit floating point of the crate
/// it comes out one step above 1 for the least channels named here, and the
/// crate panics on a ratio above 1. For a greatest channel under 255 the
/// saturation is under 1 by more than the arithmetic can be off.
pub open spec fn can_darken(c: ThemeColor) -> bool {
    let low = dimmest_channel(c);
    !(brightest_channel(c) == 255 && ((low < 64 && low % 2 == 1) || (low >= 130 && low % 4 == 2)))
}

/// The channels of the pixel that `image::imageops::resize` with the triangle
/// filter makes of an RGBA image of the given width and height when it
/// samples it down to one pixel.
pub uninterp spec fn triangle_sample(width: u32, height: u32, pixels: Seq<u8>) -> (u8, u8, u8, u8);

/// The channels of the colour that `css_colors::Color::darken` makes of the
/// colour with the given channels, for an amount in percent.
pub uninterp spec fn darkened(r: u8, g: u8, b: u8, percent: u8) -> (u8, u8, u8);

/// A colour darkened by one step.
pub open spec fn darker(c: ThemeColor) -> ThemeColor {
    let (r, g, b) = darkened(c.r, c.g, c.b, DARKEN_PERCENT);
    ThemeColor { r, g, b }
}

/// Samples an RGBA image down to one pixel: `image::ImageBuffer::from_raw`,
/// then `image::imageops::resize` with the triangle filter. The contract names
/// the pixel that comes out. It claims that the buffer is accepted where it
/// holds four bytes for each pixel, as `from_raw` tests. The outside function
/// panics on an image without pixels, which `requires` leaves out; sampled
/// down to one pixel, every pixel of the image has a weight above one half,
/// so that the sum that the crate divides by is above zero.
#[verifier::external_body]
fn triangle_resize(width: u32, height: u32, pixels: Vec<u8>, side: u32) -> (pixel: Option<
    (u8, u8, u8, u8),
>)
    requires
        width > 0,
        height > 0,
        side == 1,
    ensures
        pixels@.len() == 4 * width * height ==> pixel == Some(
            triangle_sample(width, height, pixels@),
        ),
{
    let image: image::RgbaImage = image::ImageBuffer::from_raw(width, height, pixels)?;
    let small = image::imageops::resize(&image, side, side, image::imageops::FilterType::Triangle);
    let raw = small.into_raw();
    Some((raw[0], raw[1], raw[2], raw[3]))
}

/// Darkens a colour: `css_colors::Color::darken` on `css_colors::rgb`, by
/// `css_colors::percent`. The contract names the colour that comes out. The
/// outside function panics on the colours that `can_darken` describes, and
/// `percent` on an amount above 100; `requires` leaves both out, and admits
/// the one amount that the library darkens by.
#[verifier::external_body]
fn css_darken(c: ThemeColor, percent: u8) -> (d: ThemeColor)
    requires
        percent == 1,
        can_darken(c),
    ensures
        (d.r, d.g, d.b) == darkened(c.r, c.g, c.b, percent),
{
    let d = css_colors::Color::darken(css_colors::rgb(c.r, c.g, c.b), css_colors::percent(percent));
    ThemeColor { r: d.r.as_u8(), g: d.g.as_u8(), b: d.b.as_u8() }
}

/// The colour that stands for an image: its pixels, given as `width * height`
/// groups of red, green, blue and alpha, sampled down to one pixel. The alpha
/// of that pixel is left out.
pub fn representative_color(width: u32, height: u32, pixels: Vec<u8>) -> (r: Result<
    ThemeColor,
    ImageDecodeError,
>)
    ensures
        width == 0 || height == 0 ==> r == Err::<ThemeColor, ImageDecodeError>(
            ImageDecodeError::Empty,
        ),
        width > 0 && height > 0 && pixels@.len() != 4 * width * height ==> r == Err::<
            ThemeColor,
            ImageDecodeError,
        >(ImageDecodeError::WrongLength),
        width > 0 && height > 0 && pixels@.len() == 4 * width * height ==> r == Ok::<
            ThemeColor,
            ImageDecodeError,
        >(
            ThemeColor {
                r: triangle_sample(width, height, pixels@).0,
                g: triangle_sample(width, height, pixels@).1,
                b: triangle_sample(width, height, pixels@).2,
            },
        ),
{
    if width == 0 || height == 0 {
        return Err(ImageDecodeError::Empty);
    }
    assert(4 * (width as int) * (height as int) <= 4 * 0xffff_ffff * 0xffff_ffff) by (nonlinear_arith)
        requires
            0 <= width <= 0xffff_ffff,
            0 <= height <= 0xffff_ffff,
    ;
    let expected: u128 = 4u128 * (width as u128) * (height as u128);
    if pixels.len() as u128 != expected {
        return Err(ImageDecodeError::WrongLength);
    }
    match triangle_resize(width, height, pixels, SAMPLE_SIDE) {
        Some(pixel) => Ok(ThemeColor::from_rgba(pixel)),
        None => Err(ImageDecodeError::WrongLength),
    }
}

/// Darkens a colour by one step, or says that it cannot be darkened.
pub fn darken(c: ThemeColor) -> (d: Option<ThemeColor>)
    ensures
        can_darken(c) ==> d == Some(darker(c)),
        !can_darken(c) ==> d is None,
{
    let high = if c.r >= c.g && c.r >= c.b {
        c.r
    } else if c.g >= c.b {
        c.g
    } else {
        c.b
    };
    let low = if c.r <= c.g && c.r <= c.b {
        c.r
    } else if c.g <= c.b {
        c.g
    } else {
        c.b
    };
    if high == 255 && ((low < 64 && low % 2 == 1) || (low >= 130 && low % 4 == 2)) {
        None
    } else {
        Some(css_darken(c, DARKEN_PERCENT))
    }
}

/// A search for a theme colour: the candidate, and how often it has been
/// darkened.
#[derive(Clone, Copy, Debug, PartialEq, Eq, Structural)]
pub struct ThemeSearch {
    /// The colour whose contrast against white is to be measured next.
    pub candidate: ThemeColor,
    /// The number of darkenings so far.
    pub darkenings: u8,
}

/// What a search does after a measurement.
#[derive(Clone, Copy, Debug, PartialEq, Eq, Structural)]
pub enum ThemeStep {
    /// The candidate is the theme colour.
    Found(ThemeColor),
    /// The search goes on with a darker candidate.
    Measure(ThemeSearch),
    /// The search ends without a theme colour.
    Failed(ThemeError),
}

/// What darkening makes of a colour: the darker colour, or `None` for a
/// colour that cannot be darkened.
pub open spec fn darken_of(c: ThemeColor) -> Option<ThemeColor> {
    if can_darken(c) {
        Some(darker(c))
    } else {
        None
    }
}

/// What a search does after a measurement, given what darkening makes of
/// its candidate: it keeps the candidate where the contrast suffices, and
/// else goes on with the darker colour, while there is one and it may.
pub open spec fn step_with(
    search: ThemeSearch,
    contrast_suffices: bool,
    darker: Option<ThemeColor>,
) -> ThemeStep {
    if contrast_suffices {
        ThemeStep::Found(search.candidate)
    } else if search.darkenings >= MAXIMUM_DARKENINGS {
        ThemeStep::Failed(ThemeError::TooManyDarkenings)
    } else {
        match darker {
            Some(candidate) => ThemeStep::Measure(
                ThemeSearch { candidate, darkenings: (search.darkenings + 1) as u8 },
            ),
            None => ThemeStep::Failed(ThemeError::CannotDarken(search.candidate)),
        }
    }
}

/// What a search does after a measurement.
pub open spec fn theme_step(search: ThemeSearch, contrast_suffices: bool) -> ThemeStep {
    step_with(search, contrast_suffices, darken_of(search.candidate))
}

impl ThemeSearch {
    /// Starts a search at the representative colour of an image.
    pub fn start(color: ThemeColor) -> (search: ThemeSearch)
        ensures
            search == (ThemeSearch { candidate: color, darkenings: 0 }),
    {
        ThemeSearch { candidate: color, darkenings: 0 }
    }

    /// Whether a measurement that found too little contrast leaves the
    /// search to go on, so that its candidate is to be darkened.
    pub fn may_darken(&self) -> (r: bool)
        ensures
            r == (self.darkenings < MAXIMUM_DARKENINGS),
    {
        self.darkenings < MAXIMUM_DARKENINGS
    }

    /// Takes one measurement, with what darkening makes of the candidate.
    pub fn advance_with(self, contrast_suffices: bool, darker: Option<ThemeColor>) -> (step:
        ThemeStep)
        ensures
            step == step_with(self, contrast_suffices, darker),
    {
        if contrast_suffices {
            ThemeStep::Found(self.candidate)
        } else if !self.may_darken() {
            ThemeStep::Failed(ThemeError::TooManyDarkenings)
        } else {
            match darker {
                Some(candidate) => ThemeStep::Measure(
                    ThemeSearch { candidate, darkenings: self.darkenings + 1 },
                ),
                None => ThemeStep::Failed(ThemeError::CannotDarken(self.candidate)),
            }
        }
    }

    /// Takes one measurement: whether the contrast of white against the
    /// candidate is at least `MINIMUM_CONTRAST` to 1.
    pub fn advance(self, contrast_suffices: bool) -> (step: ThemeStep)
        ensures
            step == theme_step(self, contrast_suffices),
    {
        let darker = if contrast_suffices || !self.may_darken() {
            None
        } else {
            darken(self.candidate)
        };
        self.advance_with(contrast_suffices, darker)
    }
}

/// A search hands out a colour only on a measurement that found the contrast
/// sufficient, and that colour is the one measured.
pub proof fn lemma_found_color_was_measured(search: ThemeSearch, contrast_suffices: bool)
    ensures
        theme_step(search, contrast_suffices) is Found ==> contrast_suffices && theme_step(
            search,
            contrast_suffices,
        ) == ThemeStep::Found(search.candidate),
{
}

/// A search ends: each step that goes on adds one to the number of
/// darkenings, and none goes on from `MAXIMUM_DARKENINGS`.
pub proof fn lemma_search_ends(search: ThemeSearch, contrast_suffices: bool)
    ensures
        theme_step(search, contrast_suffices) matches ThemeStep::Measure(next) ==> {
            &&& search.darkenings < MAXIMUM_DARKENINGS
            &&& next.darkenings == search.darkenings + 1
        },
{
}

} // verus!
