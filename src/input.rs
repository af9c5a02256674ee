//! First stage of the detection pipeline: a captured RGB frame is resampled
//! to the model's square input resolution.
use vstd::prelude::*;
use image::imageops::FilterType;
use image::{imageops, ImageBuffer, Rgb};
use crate::detect::INPUT_SIDE;

verus! {

/// The bytes of an RGB image (`width × height`, three bytes per pixel, row
/// after row) resampled with the Catmull-Rom filter to `new_width × new_height`.
pub uninterp spec fn catmull_rom_resized(
    width: nat,
    height: nat,
    pixels: Seq<u8>,
    new_width: nat,
    new_height: nat,
) -> Seq<u8>;

/// Relies on `image::imageops::resize` with `FilterType::CatmullRom` over an
/// `ImageBuffer::from_raw` of the pixels: the result has exactly
/// `new_width × new_height` RGB pixels, and an image already of that size is
/// copied unchanged.
#[verifier::external_body]
fn resize_catmull_rom(width: u32, height: u32, pixels: Vec<u8>, new_width: u32, new_height: u32) -> (r: Vec<u8>)
    requires
        width >= 1,
        height >= 1,
        pixels@.len() == 3 * width * height,
        new_width >= 1,
        new_height >= 1,
        3 * new_width * new_height <= usize::MAX,
    ensures
        r@ == catmull_rom_resized(width as nat, height as nat, pixels@, new_width as nat, new_height as nat),
        r@.len() == 3 * new_width * new_height,
        width == new_width && height == new_height ==> r@ == pixels@,
{
    match ImageBuffer::<Rgb<u8>, Vec<u8>>::from_raw(width, height, pixels) {
        Some(img) => imageops::resize(&img, new_width, new_height, FilterType::CatmullRom).into_raw(),
        None => Vec::new(),
    }
}

/// A captured frame the pipeline can use: not empty, and three bytes per pixel.
pub open spec fn frame_ok(width: nat, height: nat, len: nat) -> bool {
    width >= 1 && height >= 1 && len == 3 * width * height
}

/// Resamples a captured RGB frame to the square model input
/// (`INPUT_SIDE × INPUT_SIDE`); `None` when the frame's size and its bytes
/// disagree.
pub fn prepare_frame(width: u32, height: u32, pixels: Vec<u8>) -> (r: Option<Vec<u8>>)
    ensures
        match r {
            Some(v) => frame_ok(width as nat, height as nat, pixels@.len()) && v@ == catmull_rom_resized(
                width as nat,
                height as nat,
                pixels@,
                INPUT_SIDE as nat,
                INPUT_SIDE as nat,
            ) && v@.len() == 3 * INPUT_SIDE * INPUT_SIDE,
            None => !frame_ok(width as nat, height as nat, pixels@.len()),
        },
{
    if width == 0 || height == 0 {
        return None;
    }
    assert(3 * (width as u128) * (height as u128) <= 3 * 0xffff_ffffu128 * 0xffff_ffffu128) by (nonlinear_arith)
        requires
            width <= 0xffff_ffffu32,
            height <= 0xffff_ffffu32,
    ;
    let expected: u128 = 3 * (width as u128) * (height as u128);
    if pixels.len() as u128 != expected {
        return None;
    }
    Some(resize_catmull_rom(width, height, pixels, INPUT_SIDE, INPUT_SIDE))
}

} // verus!
