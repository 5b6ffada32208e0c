//! The image filters of the filter chain that work on integers alone:
//! emboss and sharpen, two 3 x 3 convolutions, and the grayscale conversion.
//! The arithmetic is the `raster` crate's; this module holds the pictures,
//! decides whether a picture can be filtered at all, and reports the outcome.
//! Saturation and gamma correction take a floating-point factor and are
//! applied by the caller.

use crate::workload::Filter;
use vstd::prelude::*;

verus! {

/// A raster image: `width * height` pixels, row by row, four bytes each
/// (red, green, blue, alpha).
#[derive(Debug, PartialEq, Eq)]
pub struct Picture {
    pub width: i32,
    pub height: i32,
    pub bytes: Vec<u8>,
}

/// Why a picture was not filtered.
#[derive(Clone, Copy, Debug, PartialEq, Eq, Structural)]
pub enum FilterError {
    /// The filter takes a floating-point factor: it is not one of this module.
    NeedsFactor,
    /// The picture has more pixel bytes than a 32-bit index can address.
    TooLarge,
    /// The picture holds fewer bytes than its width and height ask for.
    Incomplete,
}

/// What `raster::filter::emboss` leaves in the bytes of a picture of the
/// given width and height, or `None` where it reports an error.
pub uninterp spec fn embossed(width: int, height: int, bytes: Seq<u8>) -> Option<Seq<u8>>;

/// What `raster::filter::sharpen` leaves in the bytes of a picture of the
/// given width and height, or `None` where it reports an error.
pub uninterp spec fn sharpened(width: int, height: int, bytes: Seq<u8>) -> Option<Seq<u8>>;

/// What `raster::filter::grayscale` leaves in the bytes of a picture of the
/// given width and height, or `None` where it reports an error.
pub uninterp spec fn grayed(width: int, height: int, bytes: Seq<u8>) -> Option<Seq<u8>>;

/// The byte index of every pixel fits in 32 bits.
pub open spec fn addressable(width: int, height: int) -> bool {
    width <= 0 || height <= 0 || 4 * width * height <= i32::MAX
}

/// The picture holds the bytes of all its pixels.
pub open spec fn complete(width: int, height: int, len: nat) -> bool {
    width <= 0 || height <= 0 || len >= 4 * width * height
}

/// Whether the filter takes a floating-point factor.
pub open spec fn takes_factor(filter: Filter) -> bool {
    filter == Filter::Saturation || filter == Filter::Gamma
}

/// The bytes that `filter` leaves, for the filters of this module.
pub open spec fn filtered(filter: Filter, width: int, height: int, bytes: Seq<u8>) -> Option<
    Seq<u8>,
> {
    match filter {
        Filter::Emboss => embossed(width, height, bytes),
        Filter::Sharpen => sharpened(width, height, bytes),
        _ => grayed(width, height, bytes),
    }
}

/// Calls `raster::filter::emboss`, a convolution with a fixed 3 x 3 matrix
/// that reads a copy of the picture and writes every pixel in place. The
/// contract claims, unproved: the result is a function of width, height and
/// bytes; the call succeeds exactly on a picture that holds the bytes of all
/// its pixels; width, height and the number of bytes stay as they were. The
/// precondition keeps the crate's 32-bit index arithmetic from overflowing.
#[verifier::external_body]
fn emboss(picture: Picture) -> (result: Option<Picture>)
    requires
        addressable(picture.width as int, picture.height as int),
    ensures
        result is Some <==> complete(
            picture.width as int,
            picture.height as int,
            picture.bytes@.len(),
        ),
        match result {
            Some(out) => embossed(picture.width as int, picture.height as int, picture.bytes@)
                == Some(out.bytes@) && out.width == picture.width && out.height == picture.height
                && out.bytes@.len() == picture.bytes@.len(),
            None => embossed(picture.width as int, picture.height as int, picture.bytes@) is None,
        },
{
    let mut image =
        raster::Image { width: picture.width, height: picture.height, bytes: picture.bytes };
    match raster::filter::emboss(&mut image) {
        Ok(()) => Some(Picture { width: image.width, height: image.height, bytes: image.bytes }),
        Err(_) => None,
    }
}

/// Calls `raster::filter::sharpen`, a convolution with a fixed 3 x 3 matrix
/// that reads a copy of the picture and writes every pixel in place. The
/// contract claims, unproved: the result is a function of width, height and
/// bytes; the call succeeds exactly on a picture that holds the bytes of all
/// its pixels; width, height and the number of bytes stay as they were. The
/// precondition keeps the crate's 32-bit index arithmetic from overflowing.
#[verifier::external_body]
fn sharpen(picture: Picture) -> (result: Option<Picture>)
    requires
        addressable(picture.width as int, picture.height as int),
    ensures
        result is Some <==> complete(
            picture.width as int,
            picture.height as int,
            picture.bytes@.len(),
        ),
        match result {
            Some(out) => sharpened(picture.width as int, picture.height as int, picture.bytes@)
                == Some(out.bytes@) && out.width == picture.width && out.height == picture.height
                && out.bytes@.len() == picture.bytes@.len(),
            None => sharpened(picture.width as int, picture.height as int, picture.bytes@) is None,
        },
{
    let mut image =
        raster::Image { width: picture.width, height: picture.height, bytes: picture.bytes };
    match raster::filter::sharpen(&mut image) {
        Ok(()) => Some(Picture { width: image.width, height: image.height, bytes: image.bytes }),
        Err(_) => None,
    }
}

/// Calls `raster::filter::grayscale`, which reads every pixel and writes a
/// weighted sum of its red, green and blue into all four of its bytes. The
/// contract claims, unproved: the result is a function of width, height and
/// bytes; the call succeeds exactly on a picture that holds the bytes of all
/// its pixels; width, height and the number of bytes stay as they were. The
/// precondition keeps the crate's 32-bit index arithmetic from overflowing.
#[verifier::external_body]
fn grayscale(picture: Picture) -> (result: Option<Picture>)
    requires
        addressable(picture.width as int, picture.height as int),
    ensures
        result is Some <==> complete(
            picture.width as int,
            picture.height as int,
            picture.bytes@.len(),
        ),
        match result {
            Some(out) => grayed(picture.width as int, picture.height as int, picture.bytes@)
                == Some(out.bytes@) && out.width == picture.width && out.height == picture.height
                && out.bytes@.len() == picture.bytes@.len(),
            None => grayed(picture.width as int, picture.height as int, picture.bytes@) is None,
        },
{
    let mut image =
        raster::Image { width: picture.width, height: picture.height, bytes: picture.bytes };
    match raster::filter::grayscale(&mut image) {
        Ok(()) => Some(Picture { width: image.width, height: image.height, bytes: image.bytes }),
        Err(_) => None,
    }
}

/// Whether the filter takes a floating-point factor.
pub fn needs_factor(filter: Filter) -> (needed: bool)
    ensures
        needed == takes_factor(filter),
{
    match filter {
        Filter::Saturation => true,
        Filter::Gamma => true,
        _ => false,
    }
}

/// Whether the byte index of every pixel fits in 32 bits.
pub fn is_addressable(width: i32, height: i32) -> (fits: bool)
    ensures
        fits == addressable(width as int, height as int),
{
    if width <= 0 || height <= 0 {
        return true;
    }
    let wide: i64 = width as i64;
    let high: i64 = height as i64;
    assert(0 < wide * high <= 0x7fff_ffff * 0x7fff_ffff) by (nonlinear_arith)
        requires
            0 < wide <= 0x7fff_ffff,
            0 < high <= 0x7fff_ffff,
    ;
    let pixels: i64 = wide * high;
    assert(4 * (width as int) * (height as int) == 4 * pixels) by (nonlinear_arith)
        requires
            pixels == (width as int) * (height as int),
    ;
    pixels <= 536870911
}

/// What the outcome of a filter of the `raster` crate means: a picture, or
/// the report that the picture was incomplete.
pub fn filter_outcome(result: Option<Picture>) -> (outcome: Result<Picture, FilterError>)
    ensures
        outcome == (match result {
            Some(picture) => Ok::<Picture, FilterError>(picture),
            None => Err(FilterError::Incomplete),
        }),
{
    match result {
        Some(picture) => Ok(picture),
        None => Err(FilterError::Incomplete),
    }
}

/// Applies `filter` to the picture. The filters that take a factor are
/// refused; so is a picture too large to address, and one that holds fewer
/// bytes than its pixels need. A picture without pixels passes unchanged in
/// width, height and number of bytes, like every other.
pub fn apply_filter(filter: Filter, picture: Picture) -> (outcome: Result<Picture, FilterError>)
    ensures
        match outcome {
            Ok(out) => {
                &&& !takes_factor(filter)
                &&& filtered(filter, picture.width as int, picture.height as int, picture.bytes@)
                    == Some(out.bytes@)
                &&& out.width == picture.width
                &&& out.height == picture.height
                &&& out.bytes@.len() == picture.bytes@.len()
            },
            Err(FilterError::NeedsFactor) => takes_factor(filter),
            Err(FilterError::TooLarge) => !takes_factor(filter) && !addressable(
                picture.width as int,
                picture.height as int,
            ),
            Err(FilterError::Incomplete) => !takes_factor(filter) && addressable(
                picture.width as int,
                picture.height as int,
            ) && !complete(picture.width as int, picture.height as int, picture.bytes@.len()),
        },
{
    if needs_factor(filter) {
        return Err(FilterError::NeedsFactor);
    }
    if !is_addressable(picture.width, picture.height) {
        return Err(FilterError::TooLarge);
    }
    let result = match filter {
        Filter::Emboss => emboss(picture),
        Filter::Sharpen => sharpen(picture),
        _ => grayscale(picture),
    };
    filter_outcome(result)
}

} // verus!
