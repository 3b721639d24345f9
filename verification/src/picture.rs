//! Pictures: out of the bytes of an image file, into the pixels that the window shows.
use vstd::prelude::*;
use crate::formats::{can_decode, decoded_in_integers, decoder_comes_back};

verus! {

/// The decoders may panic on a file, so that they were not asked.
#[derive(Debug, PartialEq, Eq, Structural)]
pub struct MayPanic;

/// A decoded picture: four bytes per pixel (red, green, blue, opacity), row by row.
#[derive(Debug)]
pub struct RgbaImage {
    pub width: u32,
    pub height: u32,
    pub rgba: Vec<u8>,
}

impl RgbaImage {
    /// Whether there are four bytes for each pixel.
    pub open spec fn wf(self) -> bool {
        self.rgba@.len() == self.width * self.height * 4
    }
}

/// A picture as the window shows it: one colour per pixel, row by row, each already multiplied
/// with its opacity.
#[derive(Debug)]
pub struct ColorImage {
    pub width: usize,
    pub height: usize,
    pub pixels: Vec<(u8, u8, u8, u8)>,
}

/// The contents of a [`ColorImage`].
pub struct ImageView {
    pub width: int,
    pub height: int,
    pub pixels: Seq<(u8, u8, u8, u8)>,
}

impl View for ColorImage {
    type V = ImageView;

    open spec fn view(&self) -> ImageView {
        ImageView { width: self.width as int, height: self.height as int, pixels: self.pixels@ }
    }
}

/// The contents of a picture that may be missing.
pub open spec fn opt_image(image: Option<ColorImage>) -> Option<ImageView> {
    match image {
        Some(i) => Some(i@),
        None => None,
    }
}

impl Clone for ColorImage {
    fn clone(&self) -> (r: ColorImage)
        ensures
            r@ == self@,
    {
        let mut pixels: Vec<(u8, u8, u8, u8)> = Vec::new();
        let mut i: usize = 0;
        while i < self.pixels.len()
            invariant
                i <= self.pixels.len(),
                pixels@ == self.pixels@.take(i as int),
            decreases self.pixels.len() - i,
        {
            pixels.push(self.pixels[i]);
            i = i + 1;
            assert(self.pixels@.take(i as int) =~= self.pixels@.take(i - 1).push(
                self.pixels@[i - 1],
            ));
        }
        assert(self.pixels@.take(i as int) =~= self.pixels@);
        ColorImage { width: self.width, height: self.height, pixels }
    }
}

/// Whether `image::load_from_memory` decodes `bytes`, and the width and height of the picture that
/// it then finds.
pub uninterp spec fn picture_size(bytes: Seq<u8>) -> Option<(u32, u32)>;

/// The pixels that `to_rgba8` gives of the picture that `image::load_from_memory` finds in `bytes`,
/// four bytes each, where it is decoded in whole numbers alone.
pub uninterp spec fn picture_rgba(bytes: Seq<u8>) -> Seq<u8>;

/// The width and height of a decoded picture.
pub open spec fn size_of_rgba(image: Option<RgbaImage>) -> Option<(u32, u32)> {
    match image {
        Some(i) => Some((i.width, i.height)),
        None => None,
    }
}

/// Whether `p` is the colour of a pixel with the bytes `r`, `g`, `b` and `a`, multiplied with its
/// opacity. The opacity stays, and so does what is opaque; what is fully transparent turns to
/// zeros.
pub open spec fn shows_color(r: u8, g: u8, b: u8, a: u8, p: (u8, u8, u8, u8)) -> bool {
    &&& p.3 == a
    &&& a == 255 ==> p.0 == r && p.1 == g && p.2 == b
    &&& a == 0 || r == 0 ==> p.0 == 0
    &&& a == 0 || g == 0 ==> p.1 == 0
    &&& a == 0 || b == 0 ==> p.2 == 0
}

/// Whether `pixels` are the colours of the pixels in `rgba`, multiplied with their opacity.
pub open spec fn shows_pixels(rgba: Seq<u8>, pixels: Seq<(u8, u8, u8, u8)>) -> bool {
    &&& pixels.len() == rgba.len() / 4
    &&& forall|i: int|
        0 <= i < pixels.len() ==> shows_color(
            rgba[4 * i],
            rgba[4 * i + 1],
            rgba[4 * i + 2],
            rgba[4 * i + 3],
            #[trigger] pixels[i],
        )
}

/// Whether `image` can be what is read out of `bytes`: there is a picture where they can be
/// decoded and only there, it has their width and height, and, where they are decoded in whole
/// numbers alone, their pixels.
pub open spec fn is_picture_in(bytes: Seq<u8>, image: Option<ImageView>) -> bool {
    match picture_size(bytes) {
        Some((width, height)) => {
            &&& image matches Some(i)
            &&& i.width == width
            &&& i.height == height
            &&& i.pixels.len() == width * height
            &&& decoded_in_integers(bytes) ==> shows_pixels(picture_rgba(bytes), i.pixels)
        },
        None => image is None,
    }
}

/// `image::load_from_memory`, and of its result `width`, `height` and `to_rgba8`. Claimed of them:
/// whether the bytes are decoded, and the size of the picture, depend on the bytes alone,
/// `to_rgba8` gives four bytes for each pixel, and the values of those bytes depend on the bytes
/// alone for the formats that are decoded in whole numbers. The values are not stated for JPEG, TIFF,
/// Radiance and the portable pixmaps: they go through floating point or the vector units of a
/// processor, or do so for some files, and are rounded differently from one machine to another. The
/// decoders panic on some files; `requires` leaves them out, and nothing is claimed of these.
#[verifier::external_body]
pub(crate) fn image_load(bytes: &Vec<u8>) -> (r: Option<RgbaImage>)
    requires
        decoder_comes_back(bytes@),
    ensures
        size_of_rgba(r) == picture_size(bytes@),
        r matches Some(i) ==> i.wf(),
        r matches Some(i) ==> (decoded_in_integers(bytes@) ==> i.rgba@ == picture_rgba(bytes@)),
{
    match image::load_from_memory(bytes) {
        Ok(img) => Some(
            RgbaImage { width: img.width(), height: img.height(), rgba: img.to_rgba8().into_raw() },
        ),
        Err(_) => None,
    }
}

/// `eframe::egui::ColorImage::from_rgba_unmultiplied`, whose pixels are handed out as tuples. Claimed
/// of it: one colour for each four bytes, in their order, which keeps the opacity, all of an opaque
/// pixel and any channel that is zero, and which is all zeros where the opacity is zero. The other
/// channels of half-transparent pixels are not stated: they come out of floating-point powers,
/// whose last digit depends on the machine. It panics unless there are four bytes for each pixel.
#[verifier::external_body]
pub(crate) fn egui_pixels(width: usize, height: usize, rgba: &Vec<u8>) -> (r: Vec<(u8, u8, u8, u8)>)
    requires
        width * height * 4 == rgba@.len(),
    ensures
        shows_pixels(rgba@, r@),
{
    let shown = eframe::egui::ColorImage::from_rgba_unmultiplied([width, height], rgba);
    shown.pixels.iter().map(|p| p.to_tuple()).collect()
}

/// The picture in `bytes`, four bytes per pixel; `None` where they are no picture.
pub fn decode_image(bytes: &Vec<u8>) -> (r: Result<Option<RgbaImage>, MayPanic>)
    ensures
        r is Err <==> !decoder_comes_back(bytes@),
        r matches Ok(image) ==> size_of_rgba(image) == picture_size(bytes@),
        r matches Ok(Some(i)) ==> i.wf(),
        r matches Ok(Some(i)) ==> (decoded_in_integers(bytes@) ==> i.rgba@ == picture_rgba(bytes@)),
{
    if can_decode(bytes) {
        Ok(image_load(bytes))
    } else {
        Err(MayPanic)
    }
}

/// The decoded picture `image`, as the window shows it.
pub fn color_image(image: &RgbaImage) -> (r: ColorImage)
    requires
        image.wf(),
    ensures
        r.width == image.width,
        r.height == image.height,
        shows_pixels(image.rgba@, r.pixels@),
{
    let width: usize = image.width as usize;
    let height: usize = image.height as usize;
    let pixels = egui_pixels(width, height, &image.rgba);
    ColorImage { width, height, pixels }
}

/// The picture in `bytes`, as the window shows it; `None` where they are no picture.
pub fn load_picture(bytes: &Vec<u8>) -> (r: Result<Option<ColorImage>, MayPanic>)
    ensures
        r is Err <==> !decoder_comes_back(bytes@),
        r matches Ok(image) ==> is_picture_in(bytes@, opt_image(image)),
{
    match decode_image(bytes) {
        Ok(Some(image)) => Ok(Some(color_image(&image))),
        Ok(None) => Ok(None),
        Err(e) => Err(e),
    }
}

/// What is read out of bytes is there exactly where the decoder finds a picture in them, and has its
/// size. Where they are decoded in whole numbers, it is that picture pixel by pixel.
pub proof fn law_whole_picture_is_shown(bytes: Seq<u8>, image: Option<ImageView>)
    requires
        is_picture_in(bytes, image),
    ensures
        image is Some <==> picture_size(bytes) is Some,
        image matches Some(i) ==> picture_size(bytes) == Some((i.width as u32, i.height as u32)),
        image matches Some(i) ==> (decoded_in_integers(bytes) ==> shows_pixels(
            picture_rgba(bytes),
            i.pixels,
        )),
{
}

/// Where bytes are decoded in whole numbers, each pixel that is shown has the opacity of the decoded one,
/// an opaque one all its colours, and a fully transparent one none.
pub proof fn law_pixels_are_shown(bytes: Seq<u8>, image: ImageView, i: int)
    requires
        is_picture_in(bytes, Some(image)),
        decoded_in_integers(bytes),
        0 <= i < image.pixels.len(),
    ensures
        ({
            let rgba = picture_rgba(bytes);
            let p = image.pixels[i];
            &&& image.pixels.len() == image.width * image.height
            &&& p.3 == rgba[4 * i + 3]
            &&& rgba[4 * i + 3] == 255 ==> p.0 == rgba[4 * i] && p.1 == rgba[4 * i + 1] && p.2 == rgba[4 * i
                + 2]
            &&& rgba[4 * i + 3] == 0 ==> p.0 == 0 && p.1 == 0 && p.2 == 0
            &&& rgba[4 * i] == 0 ==> p.0 == 0
            &&& rgba[4 * i + 1] == 0 ==> p.1 == 0
            &&& rgba[4 * i + 2] == 0 ==> p.2 == 0
        }),
{
}

} // verus!
