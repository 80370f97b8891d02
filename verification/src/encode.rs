//! Handing a finished frame to the image encoder.

use image::{ImageBuffer, Rgba};
use vstd::prelude::*;
use vstd::string::StringExecFns;

verus! {

/// An image of the `image` crate with four bytes to the pixel, as its
/// encoder takes it. The verifier does not look into it: what it holds is
/// known only by `image_bytes` and `image_size`.
#[verifier::external_body]
pub struct FrameImage {
    pub image: ImageBuffer<Rgba<u8>, Vec<u8>>,
}

/// The bytes that an image holds, row by row.
pub uninterp spec fn image_bytes(image: FrameImage) -> Seq<u8>;

/// The width and the height that an image was made with.
pub uninterp spec fn image_size(image: FrameImage) -> (u32, u32);

/// A buffer of `len` bytes is enough for an image of `width` times `height`
/// pixels: the bytes of one row can be counted in a `usize`, and the buffer
/// holds at least four bytes for each pixel.
pub open spec fn image_fits(width: u32, height: u32, len: nat) -> bool {
    &&& 4 * width <= usize::MAX
    &&& 4 * width * height <= len
}

/// `image::ImageBuffer::from_raw`: it counts the bytes that are needed in a
/// `usize`, four times the width and that times the height, and gives an
/// image when that count can be made and the buffer holds as many bytes or
/// more; else it gives none. The image keeps the whole buffer and the two
/// dimensions as they were given.
#[verifier::external_body]
fn image_from_raw(width: u32, height: u32, buffer: Vec<u8>) -> (image: Option<FrameImage>)
    ensures
        image is Some <==> image_fits(width, height, buffer@.len()),
        image matches Some(i) ==> image_bytes(i) == buffer@ && image_size(i) == (width, height),
{
    match ImageBuffer::from_raw(width, height, buffer) {
        Some(image) => Some(FrameImage { image }),
        None => None,
    }
}

/// The image of a frame of `width` times `height` pixels, where `buffer`
/// is enough for it.
pub fn frame_image(width: u32, height: u32, buffer: Vec<u8>) -> (image: Option<FrameImage>)
    ensures
        image is Some <==> image_fits(width, height, buffer@.len()),
        image matches Some(i) ==> image_bytes(i) == buffer@ && image_size(i) == (width, height),
{
    image_from_raw(width, height, buffer)
}

/// The decimal digit for `d`, which is below ten.
pub open spec fn digit(d: nat) -> char {
    if d == 0 {
        '0'
    } else if d == 1 {
        '1'
    } else if d == 2 {
        '2'
    } else if d == 3 {
        '3'
    } else if d == 4 {
        '4'
    } else if d == 5 {
        '5'
    } else if d == 6 {
        '6'
    } else if d == 7 {
        '7'
    } else if d == 8 {
        '8'
    } else {
        '9'
    }
}

/// The number in decimal digits, without leading zeros.
pub open spec fn decimal(n: nat) -> Seq<char>
    decreases n,
{
    if n < 10 {
        seq![digit(n)]
    } else {
        decimal(n / 10).push(digit(n % 10))
    }
}

/// The name of the file for the frame with this index: the name that was
/// given for the output, an underscore, the index, and `.png`.
pub open spec fn file_name(output: Seq<char>, index: nat) -> Seq<char> {
    output + seq!['_'] + decimal(index) + seq!['.', 'p', 'n', 'g']
}

fn digit_of(d: usize) -> (c: char)
    requires
        d < 10,
    ensures
        c == digit(d as nat),
{
    match d {
        0 => '0',
        1 => '1',
        2 => '2',
        3 => '3',
        4 => '4',
        5 => '5',
        6 => '6',
        7 => '7',
        8 => '8',
        _ => '9',
    }
}

fn push_decimal(out: &mut String, n: usize)
    ensures
        final(out)@ == old(out)@ + decimal(n as nat),
    decreases n,
{
    if n >= 10 {
        push_decimal(out, n / 10);
    }
    out.push(digit_of(n % 10));
}

/// The name of the file for the frame with this index.
pub fn frame_file_name(output: &str, index: usize) -> (name: String)
    ensures
        name@ == file_name(output@, index as nat),
{
    let mut name = String::from_str(output);
    name.push('_');
    push_decimal(&mut name, index);
    name.push('.');
    name.push('p');
    name.push('n');
    name.push('g');
    name
}

} // verus!
