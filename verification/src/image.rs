//! Page images: when an image can be turned into a WebP page, whether it must
//! be scaled down first, and the encoder options.
use vstd::prelude::*;

use crate::error::ConvertError;
use crate::text::{chars_of, fmt_dec, push_all, push_dec, string_of};

verus! {

/// Largest width or height a WebP image may have.
pub const WEBP_MAX_DIMENSION: i32 = 16383;

/// An image with more than one page (an animation) is refused.
pub open spec fn page_check(pages: i32, display: Seq<char>) -> Option<Seq<char>> {
    if pages > 1 {
        Some(display + ": "@ + fmt_dec(pages as nat) + " pages (animated)"@)
    } else {
        None
    }
}

/// Refuses animated images: `AnimatedNotSupported` naming the page count.
pub fn check_pages(pages: i32, display: &str) -> (r: Result<(), ConvertError>)
    ensures
        match r {
            Ok(()) => page_check(pages, display@) is None,
            Err(e) => e is AnimatedNotSupported && page_check(pages, display@) == Some(
                e->AnimatedNotSupported_0@,
            ),
        },
{
    if pages > 1 {
        let mut m = chars_of(display);
        push_all(&mut m, &chars_of(": "));
        push_dec(&mut m, pages as u64);
        push_all(&mut m, &chars_of(" pages (animated)"));
        return Err(ConvertError::AnimatedNotSupported(string_of(&m)));
    }
    Ok(())
}

/// An image wider or taller than the WebP limit is scaled down first.
pub open spec fn oversized(w: i32, h: i32) -> bool {
    w > WEBP_MAX_DIMENSION || h > WEBP_MAX_DIMENSION
}

pub fn needs_downscale(w: i32, h: i32) -> (r: bool)
    ensures
        r == oversized(w, h),
{
    w > WEBP_MAX_DIMENSION || h > WEBP_MAX_DIMENSION
}

/// Encoder options: `.webp[Q=<quality>,lossless=<true|false>]`.
pub open spec fn webp_options_text(quality: i32, lossless: bool) -> Seq<char> {
    ".webp[Q="@ + crate::config::fmt_i32(quality) + ",lossless="@ + if lossless {
        "true"@
    } else {
        "false"@
    } + "]"@
}

pub fn webp_save_options(quality: i32, lossless: bool) -> (r: String)
    ensures
        r@ == webp_options_text(quality, lossless),
{
    let mut v = chars_of(".webp[Q=");
    crate::config::push_i32(&mut v, quality);
    push_all(&mut v, &chars_of(",lossless="));
    if lossless {
        push_all(&mut v, &chars_of("true"));
    } else {
        push_all(&mut v, &chars_of("false"));
    }
    push_all(&mut v, &chars_of("]"));
    string_of(&v)
}

} // verus!
