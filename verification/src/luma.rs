//! Grayscale (luma) frames: an image of `width × height` 8-bit luma values, row by row.

use vstd::prelude::*;
use crate::error::{Error, ErrorView};

verus! {

/// The image crate's decoding error.
#[verifier::external_type_specification]
#[verifier::external_body]
pub struct ExImageError(image::ImageError);

/// What a contract sees of a luma image.
pub struct LumaView {
    pub width: u32,
    pub height: u32,
    /// The luma values row by row; pixel `(x, y)` is at `y * width + x`.
    /// Values past `width * height` are not part of the image.
    pub pixels: Seq<u8>,
}

impl LumaView {
    /// The buffer holds every pixel of the image.
    pub open spec fn wf(self) -> bool {
        self.width as nat * self.height as nat <= self.pixels.len()
    }

    /// The luma value of pixel `(x, y)`.
    pub open spec fn luma(self, x: int, y: int) -> u8 {
        self.pixels[y * self.width + x]
    }
}

/// An 8-bit grayscale image.
pub struct LumaImage {
    width: u32,
    height: u32,
    pixels: Vec<u8>,
}

impl View for LumaImage {
    type V = LumaView;

    closed spec fn view(&self) -> LumaView {
        LumaView { width: self.width, height: self.height, pixels: self.pixels@ }
    }
}

/// Where the image file `bytes`, read from `path`, decodes to in luma (its format taken
/// from the path's extension): its width, height and luma values row by row; or, where it
/// does not decode, the display text of the image crate's error.
pub uninterp spec fn decoded_luma(path: Seq<char>, bytes: Seq<u8>) -> Result<(u32, u32, Seq<u8>), Seq<char>>;

/// Decodes `bytes` in the format that `image::ImageFormat::from_path` takes from the
/// extension of `path` (as `image::open` does), with `image::load_from_memory_with_format`,
/// and converts the result with `DynamicImage::to_luma8`. Claimed of it: the result is a
/// function of the path and the bytes alone, named `decoded_luma`: the image, whose raw
/// buffer (as every `ImageBuffer` of the crate keeps it) holds at least `width * height`
/// values; or the error, whose display text (`Display` of `ImageError`) is the named one.
#[verifier::external_body]
fn decode_luma8(path: &str, bytes: &[u8]) -> (r: Result<(u32, u32, Vec<u8>), image::ImageError>)
    ensures
        match r {
            Ok((w, h, px)) => decoded_luma(path@, bytes@) == Ok::<(u32, u32, Seq<u8>), Seq<char>>(
                (w, h, px@),
            ) && w as nat * h as nat <= px@.len(),
            Err(e) => forall|text: String|
                vstd::string::to_string_from_display_ensures::<image::ImageError>(&e, text)
                    ==> decoded_luma(path@, bytes@) == Err::<(u32, u32, Seq<u8>), Seq<char>>(text@),
        },
{
    let format = match image::ImageFormat::from_path(path) {
        Ok(format) => format,
        Err(e) => return Err(e),
    };
    match image::load_from_memory_with_format(bytes, format) {
        Ok(img) => {
            let gray = img.to_luma8();
            let (w, h) = gray.dimensions();
            Ok((w, h, gray.into_raw()))
        },
        Err(e) => Err(e),
    }
}

/// The message of a frame that could not be read or decoded: `"<path>: <reason>"`.
pub open spec fn frame_error_message(path: Seq<char>, reason: Seq<char>) -> Seq<char> {
    path + seq![':', ' '] + reason
}

/// The message of a frame at `path` that could not be read or decoded for `reason`.
pub fn frame_error_text(path: &str, reason: &str) -> (m: String)
    ensures
        m@ == frame_error_message(path@, reason@),
{
    let mut m = String::from_str(path);
    proof {
        reveal_strlit(": ");
        assert(": "@ =~= seq![':', ' ']);
    }
    m.append(": ");
    m.append(reason);
    m
}

/// The error of a frame at `path` that could not be read or decoded for `reason`.
pub fn frame_error(path: &str, reason: &str) -> (e: Error)
    ensures
        e@ == ErrorView::Capture(frame_error_message(path@, reason@)),
{
    Error::Capture(frame_error_text(path, reason))
}

impl LumaImage {
    #[verifier::type_invariant]
    closed spec fn inv(self) -> bool {
        self@.wf()
    }

    /// An image of `width × height` pixels over the luma values `pixels`, row by row;
    /// `None` when the buffer is too small to hold them.
    pub fn from_raw(width: u32, height: u32, pixels: Vec<u8>) -> (r: Option<LumaImage>)
        ensures
            r is Some <==> width as nat * height as nat <= pixels@.len(),
            r matches Some(img) ==> img@ == (LumaView { width, height, pixels: pixels@ }),
    {
        assert(width as nat * height as nat <= u64::MAX) by (nonlinear_arith)
            requires
                width <= u32::MAX,
                height <= u32::MAX,
        ;
        let need: u64 = width as u64 * height as u64;
        if need <= pixels.len() as u64 {
            Some(LumaImage { width, height, pixels })
        } else {
            None
        }
    }

    /// The frame that the image file `bytes`, read from `path`, decodes to; a decoding
    /// failure is reported as `"<path>: <reason>"`.
    pub fn decode(path: &str, bytes: &[u8]) -> (r: Result<LumaImage, Error>)
        ensures
            match decoded_luma(path@, bytes@) {
                Ok((w, h, px)) => r matches Ok(img) && img@ == (LumaView { width: w, height: h, pixels: px }),
                Err(reason) => r matches Err(e) && e@ == ErrorView::Capture(
                    frame_error_message(path@, reason),
                ),
            },
    {
        match decode_luma8(path, bytes) {
            Ok((width, height, pixels)) => Ok(LumaImage { width, height, pixels }),
            Err(e) => {
                let reason = e.to_string();
                Err(frame_error(path, reason.as_str()))
            },
        }
    }

    pub fn width(&self) -> (w: u32)
        ensures
            w == self@.width,
    {
        self.width
    }

    pub fn height(&self) -> (h: u32)
        ensures
            h == self@.height,
    {
        self.height
    }

    /// The image's `(width, height)`.
    pub fn dimensions(&self) -> (d: (u32, u32))
        ensures
            d == (self@.width, self@.height),
            self@.wf(),
    {
        proof {
            use_type_invariant(self);
        }
        (self.width, self.height)
    }

    /// The luma value of pixel `(x, y)`.
    pub fn get_pixel(&self, x: u32, y: u32) -> (v: u8)
        requires
            x < self@.width,
            y < self@.height,
        ensures
            v == self@.luma(x as int, y as int),
    {
        proof {
            use_type_invariant(self);
            lemma_pixel_index(x as int, y as int, self.width as int, self.height as int);
            assert(self.pixels@.len() == self.pixels.len());
        }
        self.pixels[y as usize * self.width as usize + x as usize]
    }
}

/// A pixel inside a `width × height` image lies inside its row-by-row buffer.
pub proof fn lemma_pixel_index(x: int, y: int, width: int, height: int)
    requires
        0 <= x < width,
        0 <= y < height,
    ensures
        0 <= y * width + x < width * height,
        y * width <= y * width + x,
{
    assert(y * width + x < width * height) by (nonlinear_arith)
        requires
            0 <= x < width,
            0 <= y < height,
    ;
    assert(0 <= y * width) by (nonlinear_arith)
        requires
            0 <= x < width,
            0 <= y,
    ;
}

} // verus!
