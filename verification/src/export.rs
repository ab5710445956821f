//! Single frames as grayscale pictures.

use crate::analysis::{luma, luma_of};
use crate::decoder::VideoFrame;
use crate::text::{append_decimal, append_padded, decimal, lemma_padded_distinct, padded};
use vstd::prelude::*;
use vstd::string::StringExecFns;

verus! {

/// The colours of every pixel are there.
pub open spec fn has_pixels(len: nat, n: int) -> bool {
    n > 0 ==> len >= 4 * n - 1
}

/// Whether the colours of every pixel are there.
pub fn can_convert(frame: &VideoFrame) -> (r: bool)
    ensures
        r == has_pixels(frame.rgba@.len(), frame.width * frame.height),
{
    assert(0 <= frame.width * frame.height <= u32::MAX as int * u32::MAX as int)
        by (nonlinear_arith)
        requires
            0 <= frame.width <= u32::MAX,
            0 <= frame.height <= u32::MAX,
    ;
    let n: u64 = frame.width as u64 * frame.height as u64;
    n == 0 || frame.rgba.len() as u128 >= 4 * n as u128 - 1
}

/// The BT.601 luma of each pixel of an RGBA frame, row by row.
pub open spec fn bw_levels(frame: VideoFrame) -> Seq<u8> {
    Seq::new(
        (frame.width * frame.height) as nat,
        |i: int|
            luma(
                frame.rgba@[4 * i],
                frame.rgba@[4 * i + 1],
                frame.rgba@[4 * i + 2],
            ) as u8,
    )
}

/// The BT.601 luma of each pixel of an RGBA frame, row by row.
pub fn bw_pixels(frame: &VideoFrame) -> (gray: Vec<u8>)
    requires
        has_pixels(frame.rgba@.len(), frame.width * frame.height),
    ensures
        gray@ == bw_levels(*frame),
{
    proof {
        assert(frame.rgba@.len() == frame.rgba.len());
        assert(0 <= frame.width * frame.height <= u32::MAX as int * u32::MAX as int)
            by (nonlinear_arith)
            requires
                0 <= frame.width <= u32::MAX,
                0 <= frame.height <= u32::MAX,
        ;
    }
    let n: u64 = frame.width as u64 * frame.height as u64;
    let mut gray: Vec<u8> = Vec::new();
    let mut i: usize = 0;
    while (i as u64) < n
        invariant
            n == frame.width * frame.height,
            i <= n,
            has_pixels(frame.rgba@.len(), n as int),
            gray@.len() == i,
            forall|j: int|
                0 <= j < i ==> gray@[j] == luma(
                    frame.rgba@[4 * j],
                    frame.rgba@[4 * j + 1],
                    frame.rgba@[4 * j + 2],
                ),
        decreases n - i,
    {
        assert(frame.rgba@.len() == frame.rgba.len());
        gray.push(luma_of(frame.rgba[4 * i], frame.rgba[4 * i + 1], frame.rgba[4 * i + 2]));
        i = i + 1;
    }
    gray
}

/// What `image::write_buffer_with_format` writes for a gray picture in the PNG
/// format, or the message of its error.
pub uninterp spec fn png_file(width: u32, height: u32, levels: Seq<u8>) -> Result<
    Seq<u8>,
    Seq<char>,
>;

/// Encode a gray picture with `image::write_buffer_with_format`, which fails an
/// assertion where there is not one level for each pixel. The bytes that it
/// writes, or the message of its error, depend on the size and the levels alone;
/// which bytes they are is left unsaid.
#[verifier::external_body]
fn encode_png(width: u32, height: u32, levels: &[u8]) -> (r: Result<Vec<u8>, String>)
    requires
        levels@.len() == width * height,
    ensures
        match r {
            Ok(bytes) => png_file(width, height, levels@) == Ok::<Seq<u8>, Seq<char>>(bytes@),
            Err(e) => png_file(width, height, levels@) == Err::<Seq<u8>, Seq<char>>(e@),
        },
{
    let mut out = std::io::Cursor::new(Vec::new());
    let color = image::ExtendedColorType::L8;
    let format = image::ImageFormat::Png;
    match image::write_buffer_with_format(&mut out, levels, width, height, color, format) {
        Ok(()) => Ok(out.into_inner()),
        Err(e) => Err(e.to_string()),
    }
}

/// Convert an RGBA frame to grayscale, as the bytes of a PNG file.
pub fn bw_png(frame: &VideoFrame) -> (r: Result<Vec<u8>, String>)
    requires
        has_pixels(frame.rgba@.len(), frame.width * frame.height),
    ensures
        match r {
            Ok(bytes) => png_file(frame.width, frame.height, bw_levels(*frame)) == Ok::<
                Seq<u8>,
                Seq<char>,
            >(bytes@),
            Err(e) => png_file(frame.width, frame.height, bw_levels(*frame)) == Err::<
                Seq<u8>,
                Seq<char>,
            >(e@),
        },
{
    let gray = bw_pixels(frame);
    assert(0 <= frame.width * frame.height) by (nonlinear_arith);
    encode_png(frame.width, frame.height, gray.as_slice())
}

/// What to tell the user when a frame could not be saved.
pub fn save_failure(count: u64, error: &str) -> (s: String)
    ensures
        s@ == "Failed to save frame "@ + decimal(count as nat) + ": "@ + error@,
{
    let mut s = String::from_str("Failed to save frame ");
    append_decimal(&mut s, count);
    s.append(": ");
    s.append(error);
    s
}

/// `frame_NNNNNN.png`.
pub open spec fn frame_name(count: nat) -> Seq<char> {
    "frame_"@ + padded(count, 6) + ".png"@
}

/// Frames with different numbers go to different files.
pub proof fn lemma_frame_names_distinct(a: nat, b: nat)
    requires
        frame_name(a) == frame_name(b),
    ensures
        a == b,
{
    let from = "frame_"@.len() as int;
    let end = frame_name(a).len() - ".png"@.len();
    assert(frame_name(a).subrange(from, end) =~= padded(a, 6));
    assert(frame_name(b).subrange(from, end) =~= padded(b, 6));
    lemma_padded_distinct(a, b, 6);
}

/// The file of the frame with the given number.
pub fn frame_file_name(count: u64) -> (s: String)
    ensures
        s@ == frame_name(count as nat),
{
    let mut s = String::from_str("frame_");
    append_padded(&mut s, count);
    s.append(".png");
    s
}

} // verus!
