//! The images that tiles, icons and terrain come in.
use crate::terrain_mesh::Heightmap;
use vstd::prelude::*;

verus! {

/// The kinds of pixels that a PNG has.
#[derive(Copy, Clone, PartialEq, Eq, Debug, Structural)]
pub enum PngColor {
    Grayscale,
    Rgb,
    Indexed,
    GrayscaleAlpha,
    Rgba,
}

/// The kinds of pixels that a JPEG has.
#[derive(Copy, Clone, PartialEq, Eq, Debug, Structural)]
pub enum JpegColor {
    L8,
    L16,
    Rgb24,
    Cmyk32,
}

/// A PNG that was decoded: the samples of each pixel, row by row.
pub struct PngFrame {
    pub width: u32,
    pub height: u32,
    pub color: PngColor,
    pub samples: Vec<u8>,
}

/// A JPEG that was decoded: its samples, and its size and kind, if it has any.
pub struct JpegFrame {
    pub samples: Vec<u8>,
    pub info: Option<(u16, u16, JpegColor)>,
}

impl View for PngFrame {
    type V = (u32, u32, PngColor, Seq<u8>);

    open spec fn view(&self) -> (u32, u32, PngColor, Seq<u8>) {
        (self.width, self.height, self.color, self.samples@)
    }
}

impl View for JpegFrame {
    type V = (Seq<u8>, Option<(u16, u16, JpegColor)>);

    open spec fn view(&self) -> (Seq<u8>, Option<(u16, u16, JpegColor)>) {
        (self.samples@, self.info)
    }
}

/// What the `png` crate makes of a file, where a size may be up to `largest`: width,
/// height, kind and samples of its first frame, or what is wrong with it.
pub uninterp spec fn png_frame_of(file: Seq<u8>, largest: nat) -> Result<
    (u32, u32, PngColor, Seq<u8>),
    Seq<char>,
>;

/// Width and height in the frame header that the `jpeg_decoder` crate finds in a file,
/// or none where it refuses the file before.
pub uninterp spec fn jpeg_size_of(file: Seq<u8>) -> Option<(u16, u16)>;

/// What the `jpeg_decoder` crate makes of a file, where a size may be up to `largest`
/// and words lie in memory with their low byte first or last: its samples with its size
/// and kind, or what is wrong with it.
pub uninterp spec fn jpeg_frame_of(file: Seq<u8>, largest: nat, low_first: bool) -> Result<
    (Seq<u8>, Option<(u16, u16, JpegColor)>),
    Seq<char>,
>;

/// What the `png` crate makes of a file here.
pub open spec fn png_decoded(file: Seq<u8>) -> Result<(u32, u32, PngColor, Seq<u8>), Seq<char>> {
    png_frame_of(file, usize::MAX as nat)
}

/// What the `jpeg_decoder` crate makes of a file here.
pub open spec fn jpeg_decoded(file: Seq<u8>) -> Result<
    (Seq<u8>, Option<(u16, u16, JpegColor)>),
    Seq<char>,
> {
    jpeg_frame_of(file, usize::MAX as nat, vstd::endian::endianness() is Little)
}

/// The largest width and height of a JPEG that is decoded: beyond it the crate counts
/// lines past the end of 16 bits.
pub const MAX_JPEG_SIDE: u16 = 65_528;

/// The largest JPEG file that is decoded: one of so many bytes has fewer scans than the
/// crate counts.
pub const MAX_JPEG_BYTES: u64 = 21_474_836_470;

/// Whether the `jpeg_decoder` crate can decode a file or refuse it: the file is not
/// larger, and its image no wider or higher, than the crate counts, and what the
/// image takes up while it is decoded, with its borders, can be in memory.
pub open spec fn jpeg_fits(file: Seq<u8>) -> bool {
    &&& file.len() <= MAX_JPEG_BYTES
    &&& jpeg_size_of(file) matches Some(size) ==> {
        &&& size.0 <= MAX_JPEG_SIDE
        &&& size.1 <= MAX_JPEG_SIDE
        &&& 8 * ((size.0 + 64) * (size.1 + 64)) <= isize::MAX
    }
}

/// An outcome by its view.
pub open spec fn png_view(outcome: Result<PngFrame, String>) -> Result<
    (u32, u32, PngColor, Seq<u8>),
    Seq<char>,
> {
    match outcome {
        Ok(frame) => Ok(frame@),
        Err(e) => Err(e@),
    }
}

/// An outcome by its view.
pub open spec fn jpeg_view(outcome: Result<JpegFrame, String>) -> Result<
    (Seq<u8>, Option<(u16, u16, JpegColor)>),
    Seq<char>,
> {
    match outcome {
        Ok(frame) => Ok(frame@),
        Err(e) => Err(e@),
    }
}

/// `png::Decoder::read_info` and `png::Reader::next_frame`: decodes the first frame
/// of a PNG into a buffer of the size that the reader asks for. Claims only that the
/// outcome, or the text of the error, depends on the bytes and on the largest size
/// that the machine counts to: beyond it a frame is refused.
#[verifier::external_body]
fn decode_png(file: &[u8]) -> (outcome: Result<PngFrame, String>)
    ensures
        png_view(outcome) == png_frame_of(file@, usize::MAX as nat),
{
    let decoder = png::Decoder::new(std::io::Cursor::new(file));
    let mut reader = decoder.read_info().map_err(|e| e.to_string())?;
    let mut samples = vec![0u8; reader.output_buffer_size().unwrap_or(0)];
    let info = reader.next_frame(&mut samples).map_err(|e| e.to_string())?;
    let color = match info.color_type {
        png::ColorType::Grayscale => PngColor::Grayscale,
        png::ColorType::Rgb => PngColor::Rgb,
        png::ColorType::Indexed => PngColor::Indexed,
        png::ColorType::GrayscaleAlpha => PngColor::GrayscaleAlpha,
        png::ColorType::Rgba => PngColor::Rgba,
    };
    Ok(PngFrame { width: info.width, height: info.height, color, samples })
}

/// `jpeg_decoder::Decoder::read_info` and `jpeg_decoder::Decoder::info`: reads a JPEG up
/// to its frame header. Claims only that the outcome depends on the bytes alone.
#[verifier::external_body]
fn measure_jpeg(file: &[u8]) -> (size: Option<(u16, u16)>)
    ensures
        size == jpeg_size_of(file@),
{
    let mut decoder = jpeg_decoder::Decoder::new(std::io::Cursor::new(file));
    decoder.read_info().ok()?;
    decoder.info().map(|i| (i.width, i.height))
}

/// `jpeg_decoder::Decoder::decode` and `jpeg_decoder::Decoder::info`: decodes a JPEG.
/// Claims only that the outcome, or the text of the error, depends on the bytes, on the
/// largest size that the machine counts to, beyond which an image is refused, and on the
/// order of bytes in its words: samples that are not of eight bits come as two bytes in
/// that order. That the samples are the same on every processor rests on the crate's
/// feature `platform_independent`, without which it picks its arithmetic at run time.
#[verifier::external_body]
fn decode_jpeg(file: &[u8]) -> (outcome: Result<JpegFrame, String>)
    requires
        jpeg_fits(file@),
    ensures
        jpeg_view(outcome) == jpeg_frame_of(
            file@,
            usize::MAX as nat,
            vstd::endian::endianness() is Little,
        ),
{
    let mut decoder = jpeg_decoder::Decoder::new(std::io::Cursor::new(file));
    let samples = decoder.decode().map_err(|e| e.to_string())?;
    let info = decoder.info().map(|i| (i.width, i.height, match i.pixel_format {
        jpeg_decoder::PixelFormat::L8 => JpegColor::L8,
        jpeg_decoder::PixelFormat::L16 => JpegColor::L16,
        jpeg_decoder::PixelFormat::RGB24 => JpegColor::Rgb24,
        jpeg_decoder::PixelFormat::CMYK32 => JpegColor::Cmyk32,
    }));
    Ok(JpegFrame { samples, info })
}

/// The word for a kind of pixels.
pub open spec fn png_color_word(color: PngColor) -> Seq<char> {
    match color {
        PngColor::Grayscale => "Grayscale"@,
        PngColor::Rgb => "Rgb"@,
        PngColor::Indexed => "Indexed"@,
        PngColor::GrayscaleAlpha => "GrayscaleAlpha"@,
        PngColor::Rgba => "Rgba"@,
    }
}

/// The word for a kind of pixels.
pub open spec fn jpeg_color_word(color: JpegColor) -> Seq<char> {
    match color {
        JpegColor::L8 => "L8"@,
        JpegColor::L16 => "L16"@,
        JpegColor::Rgb24 => "RGB24"@,
        JpegColor::Cmyk32 => "CMYK32"@,
    }
}

impl PngColor {
    fn word(&self) -> (word: &'static str)
        ensures
            word@ == png_color_word(*self),
    {
        match self {
            PngColor::Grayscale => "Grayscale",
            PngColor::Rgb => "Rgb",
            PngColor::Indexed => "Indexed",
            PngColor::GrayscaleAlpha => "GrayscaleAlpha",
            PngColor::Rgba => "Rgba",
        }
    }
}

impl JpegColor {
    fn word(&self) -> (word: &'static str)
        ensures
            word@ == jpeg_color_word(*self),
    {
        match self {
            JpegColor::L8 => "L8",
            JpegColor::L16 => "L16",
            JpegColor::Rgb24 => "RGB24",
            JpegColor::Cmyk32 => "CMYK32",
        }
    }
}

/// The pixels of an image with `channels` samples to the pixel as red, green, blue
/// and alpha: a single sample is all three colors, and without a fourth sample the
/// pixel is opaque.
pub open spec fn rgba_of(samples: Seq<u8>, channels: int, count: nat) -> Seq<u8> {
    Seq::new(
        4 * count,
        |i: int|
            {
                let s = i / 4 * channels;
                let c = i % 4;
                if c == 3 {
                    if channels == 4 {
                        samples[s + 3]
                    } else {
                        255u8
                    }
                } else if channels == 1 {
                    samples[s]
                } else {
                    samples[s + c]
                }
            },
    )
}

proof fn lemma_sample_in_pixels(i: int, count: int, channels: int, c: int)
    by (nonlinear_arith)
    requires
        0 <= i < count,
        0 <= c < channels,
    ensures
        0 <= i * channels,
        i * channels + c < count * channels,
{
}

fn expand(samples: &Vec<u8>, channels: usize, count: usize) -> (out: Vec<u8>)
    requires
        channels == 1 || channels == 3 || channels == 4,
        count * channels <= samples@.len(),
        4 * count <= usize::MAX,
    ensures
        out@ == rgba_of(samples@, channels as int, count as nat),
{
    let mut out: Vec<u8> = Vec::new();
    let mut i: usize = 0;
    while i < count
        invariant
            channels == 1 || channels == 3 || channels == 4,
            count * channels <= samples.len(),
            4 * count <= usize::MAX,
            i <= count,
            out@.len() == 4 * i,
            forall|j: int|
                0 <= j < out@.len() ==> #[trigger] out@[j] == rgba_of(
                    samples@,
                    channels as int,
                    count as nat,
                )[j],
        decreases count - i,
    {
        proof {
            lemma_sample_in_pixels(i as int, count as int, channels as int, channels - 1);
            lemma_sample_in_pixels(i as int, count as int, channels as int, 0);
        }
        let s: usize = i * channels;
        let ghost before = out@;
        if channels == 1 {
            out.push(samples[s]);
            out.push(samples[s]);
            out.push(samples[s]);
        } else {
            out.push(samples[s]);
            out.push(samples[s + 1]);
            out.push(samples[s + 2]);
        }
        if channels == 4 {
            out.push(samples[s + 3]);
        } else {
            out.push(255);
        }
        assert forall|j: int| 0 <= j < out@.len() implies #[trigger] out@[j] == rgba_of(
            samples@,
            channels as int,
            count as nat,
        )[j] by {
            if j < before.len() {
                assert(out@[j] == before[j]);
            } else {
                assert(j / 4 == i);
                assert(j % 4 == j - 4 * i);
            }
        }
        i = i + 1;
    }
    assert(out@ =~= rgba_of(samples@, channels as int, count as nat));
    out
}

/// The samples to the pixel of the PNGs that can be shown.
pub open spec fn png_channels(color: PngColor) -> Option<nat> {
    match color {
        PngColor::Grayscale => Some(1),
        PngColor::Rgb => Some(3),
        PngColor::Rgba => Some(4),
        PngColor::Indexed | PngColor::GrayscaleAlpha => None,
    }
}

/// The samples to the pixel of the JPEGs that can be shown.
pub open spec fn jpeg_channels(color: JpegColor) -> Option<nat> {
    match color {
        JpegColor::L8 => Some(1),
        JpegColor::Rgb24 => Some(3),
        JpegColor::L16 | JpegColor::Cmyk32 => None,
    }
}

/// Whether an image of this size with `channels` bytes to the pixel can be laid out
/// from `len` bytes.
pub open spec fn enough_samples(width: nat, height: nat, channels: nat, len: nat) -> bool {
    &&& width * height <= u32::MAX
    &&& 4 * (width * height) <= isize::MAX
    &&& width * height * channels <= len
}

/// Whether a PNG can be laid out, where it can be shown: one with less than a byte
/// to the sample cannot.
pub open spec fn png_sound(frame: (u32, u32, PngColor, Seq<u8>)) -> bool {
    match png_channels(frame.2) {
        Some(channels) => enough_samples(
            frame.0 as nat,
            frame.1 as nat,
            channels,
            frame.3.len(),
        ),
        None => frame.0 * frame.1 <= u32::MAX && 4 * (frame.0 * frame.1) <= isize::MAX,
    }
}

/// Whether a JPEG can be laid out, where it can be shown.
pub open spec fn jpeg_sound(frame: (Seq<u8>, Option<(u16, u16, JpegColor)>)) -> bool {
    match frame.1 {
        Some((w, h, color)) => match jpeg_channels(color) {
            Some(channels) => enough_samples(w as nat, h as nat, channels, frame.0.len()),
            None => 4 * (w * h) <= isize::MAX,
        },
        None => true,
    }
}

/// What a PNG comes to: its pixels, or that its kind cannot be shown.
pub open spec fn png_shown(frame: (u32, u32, PngColor, Seq<u8>)) -> Result<
    (u32, u32, Seq<u8>),
    Seq<char>,
> {
    match png_channels(frame.2) {
        Some(channels) => Ok(
            (frame.0, frame.1, rgba_of(frame.3, channels as int, (frame.0 * frame.1) as nat)),
        ),
        None => Err("unsupported png color type "@ + png_color_word(frame.2)),
    }
}

/// What a JPEG comes to: its pixels, or why it cannot be shown.
pub open spec fn jpeg_shown(frame: (Seq<u8>, Option<(u16, u16, JpegColor)>)) -> Result<
    (u32, u32, Seq<u8>),
    Seq<char>,
> {
    match frame.1 {
        Some((w, h, color)) => match jpeg_channels(color) {
            Some(channels) => Ok(
                (w as u32, h as u32, rgba_of(frame.0, channels as int, (w * h) as nat)),
            ),
            None => Err("unsupported jpeg pixel format "@ + jpeg_color_word(color)),
        },
        None => Err("no jpeg info"@),
    }
}

/// An outcome by its view.
pub open spec fn image_view(outcome: Result<(u32, u32, Vec<u8>), String>) -> Result<
    (u32, u32, Seq<u8>),
    Seq<char>,
> {
    match outcome {
        Ok(image) => Ok((image.0, image.1, image.2@)),
        Err(e) => Err(e@),
    }
}

fn joined(a: &str, b: &str) -> (out: String)
    ensures
        out@ == a@ + b@,
{
    let mut out: String = a.to_owned();
    out.append(b);
    out
}

/// Lays out a PNG as red, green, blue and alpha.
pub fn png_rgba(frame: &PngFrame) -> (image: Result<(u32, u32, Vec<u8>), String>)
    requires
        png_sound(frame@),
    ensures
        image_view(image) == png_shown(frame@),
{
    let channels: usize = match frame.color {
        PngColor::Rgb => 3,
        PngColor::Rgba => 4,
        PngColor::Grayscale => 1,
        PngColor::Indexed | PngColor::GrayscaleAlpha => {
            return Err(joined("unsupported png color type ", frame.color.word()));
        },
    };
    let count: usize = (frame.width * frame.height) as usize;
    Ok((frame.width, frame.height, expand(&frame.samples, channels, count)))
}

/// Lays out a JPEG as red, green, blue and alpha.
pub fn jpeg_rgba(frame: &JpegFrame) -> (image: Result<(u32, u32, Vec<u8>), String>)
    requires
        jpeg_sound(frame@),
    ensures
        image_view(image) == jpeg_shown(frame@),
{
    let (w, h, color) = match frame.info {
        Some(info) => info,
        None => {
            return Err("no jpeg info".to_owned());
        },
    };
    let channels: usize = match color {
        JpegColor::Rgb24 => 3,
        JpegColor::L8 => 1,
        JpegColor::L16 | JpegColor::Cmyk32 => {
            return Err(joined("unsupported jpeg pixel format ", color.word()));
        },
    };
    assert(w * h <= 65535 * 65535) by (nonlinear_arith)
        requires
            w <= 65535,
            h <= 65535,
    ;
    let count: usize = (w as u32 * h as u32) as usize;
    Ok((w as u32, h as u32, expand(&frame.samples, channels, count)))
}

/// Decodes a PNG.
pub fn read_png(file: &[u8]) -> (outcome: Result<PngFrame, String>)
    ensures
        png_view(outcome) == png_decoded(file@),
{
    decode_png(file)
}

/// Whether a JPEG can be decoded or refused.
pub fn can_read_jpeg(file: &[u8]) -> (can: bool)
    ensures
        can == jpeg_fits(file@),
{
    if file.len() as u64 > MAX_JPEG_BYTES {
        return false;
    }
    match measure_jpeg(file) {
        Some((w, h)) => {
            if w > MAX_JPEG_SIDE || h > MAX_JPEG_SIDE {
                return false;
            }
            assert((w + 64) * (h + 64) <= 65592 * 65592) by (nonlinear_arith)
                requires
                    w <= 65528,
                    h <= 65528,
            ;
            8 * ((w as u64 + 64) * (h as u64 + 64)) <= isize::MAX as u64
        },
        None => true,
    }
}

/// Decodes a JPEG.
pub fn read_jpeg(file: &[u8]) -> (outcome: Result<JpegFrame, String>)
    requires
        jpeg_fits(file@),
    ensures
        jpeg_view(outcome) == jpeg_decoded(file@),
{
    decode_jpeg(file)
}

/// Decodes a JPEG, unless it is too large.
pub fn try_read_jpeg(file: &[u8]) -> (outcome: Option<Result<JpegFrame, String>>)
    ensures
        outcome is Some <==> jpeg_fits(file@),
        outcome matches Some(o) ==> jpeg_view(o) == jpeg_decoded(file@),
{
    if can_read_jpeg(file) {
        Some(read_jpeg(file))
    } else {
        None
    }
}

/// Whether `count` pixels with `channels` bytes to the pixel can be laid out from
/// `len` bytes.
fn fits_layout(count: u64, channels: u64, len: usize) -> (fits: bool)
    requires
        channels <= 4,
    ensures
        fits == (4 * count <= isize::MAX && count * channels <= len),
{
    assert(count * channels <= 4 * u64::MAX) by (nonlinear_arith)
        requires
            channels <= 4,
            count <= u64::MAX,
    ;
    count as u128 * 4 <= isize::MAX as u128 && count as u128 * channels as u128 <= len as u128
}

fn pixel_count(width: u32, height: u32) -> (count: u64)
    ensures
        count == width * height,
{
    assert(width * height <= 0xffff_ffff * 0xffff_ffff) by (nonlinear_arith)
        requires
            width <= 0xffff_ffff,
            height <= 0xffff_ffff,
    ;
    width as u64 * height as u64
}

impl PngFrame {
    /// Whether this image can be laid out, where it can be shown.
    pub fn sound(&self) -> (sound: bool)
        ensures
            sound == png_sound(self@),
    {
        let channels: u64 = match self.color {
            PngColor::Rgb => 3,
            PngColor::Rgba => 4,
            PngColor::Grayscale => 1,
            PngColor::Indexed | PngColor::GrayscaleAlpha => 0,
        };
        let count: u64 = pixel_count(self.width, self.height);
        count <= u32::MAX as u64 && fits_layout(count, channels, self.samples.len())
    }

    /// Whether this image can be read as terrain, where it is of a kind that
    /// terrain comes in.
    pub fn terrain_sound(&self) -> (sound: bool)
        ensures
            sound == terrain_sound(self@),
    {
        let channels: u64 = match self.color {
            PngColor::Rgb => 3,
            PngColor::Rgba => 4,
            PngColor::Grayscale | PngColor::Indexed | PngColor::GrayscaleAlpha => {
                return true;
            },
        };
        fits_layout(pixel_count(self.width, self.height), channels, self.samples.len())
    }
}

impl JpegFrame {
    /// Whether this image can be laid out, where it can be shown.
    pub fn sound(&self) -> (sound: bool)
        ensures
            sound == jpeg_sound(self@),
    {
        match self.info {
            Some((w, h, color)) => {
                let channels: u64 = match color {
                    JpegColor::Rgb24 => 3,
                    JpegColor::L8 => 1,
                    JpegColor::L16 | JpegColor::Cmyk32 => 0,
                };
                assert(w * h <= 65535 * 65535) by (nonlinear_arith)
                    requires
                        w <= 65535,
                        h <= 65535,
                ;
                fits_layout(pixel_count(w as u32, h as u32), channels, self.samples.len())
            },
            None => true,
        }
    }
}

/// What becomes of a PNG.
pub open spec fn png_image(file: Seq<u8>) -> Result<(u32, u32, Seq<u8>), Seq<char>> {
    match png_decoded(file) {
        Ok(frame) => png_shown(frame),
        Err(e) => Err(e),
    }
}

/// What becomes of a JPEG.
pub open spec fn jpeg_image(file: Seq<u8>) -> Result<(u32, u32, Seq<u8>), Seq<char>> {
    match jpeg_decoded(file) {
        Ok(frame) => jpeg_shown(frame),
        Err(e) => Err(e),
    }
}

/// Whether a PNG can be laid out, where it can be decoded.
pub open spec fn png_whole(file: Seq<u8>) -> bool {
    png_decoded(file) matches Ok(frame) ==> png_sound(frame)
}

/// Whether a JPEG can be decoded or refused, and laid out where it can be decoded.
pub open spec fn jpeg_whole(file: Seq<u8>) -> bool {
    jpeg_fits(file) && (jpeg_decoded(file) matches Ok(frame) ==> jpeg_sound(frame))
}

/// Decodes a PNG to red, green, blue and alpha.
pub fn decode_png_rgba(bytes: &[u8]) -> (image: Result<(u32, u32, Vec<u8>), String>)
    requires
        png_whole(bytes@),
    ensures
        image_view(image) == png_image(bytes@),
{
    match read_png(bytes) {
        Ok(frame) => png_rgba(&frame),
        Err(e) => Err(e),
    }
}

/// Decodes a PNG to red, green, blue and alpha, unless it cannot be laid out.
pub fn try_decode_png_rgba(bytes: &[u8]) -> (image: Option<Result<(u32, u32, Vec<u8>), String>>)
    ensures
        image is Some <==> png_whole(bytes@),
        image matches Some(r) ==> image_view(r) == png_image(bytes@),
{
    match read_png(bytes) {
        Ok(frame) => if frame.sound() {
            Some(png_rgba(&frame))
        } else {
            None
        },
        Err(e) => Some(Err(e)),
    }
}

/// Decodes a JPEG to red, green, blue and alpha.
pub fn decode_jpeg_rgba(bytes: &[u8]) -> (image: Result<(u32, u32, Vec<u8>), String>)
    requires
        jpeg_whole(bytes@),
    ensures
        image_view(image) == jpeg_image(bytes@),
{
    match read_jpeg(bytes) {
        Ok(frame) => jpeg_rgba(&frame),
        Err(e) => Err(e),
    }
}

/// Decodes a JPEG to red, green, blue and alpha, unless it is too large or cannot be
/// laid out.
pub fn try_decode_jpeg_rgba(bytes: &[u8]) -> (image: Option<Result<(u32, u32, Vec<u8>), String>>)
    ensures
        image is Some <==> jpeg_whole(bytes@),
        image matches Some(r) ==> image_view(r) == jpeg_image(bytes@),
{
    match try_read_jpeg(bytes) {
        None => None,
        Some(Ok(frame)) => if frame.sound() {
            Some(jpeg_rgba(&frame))
        } else {
            None
        },
        Some(Err(e)) => Some(Err(e)),
    }
}

/// The height that a pixel of three bytes or more stands for, in parts of 256 to
/// the meter.
pub open spec fn height_of(samples: Seq<u8>, at: int) -> i32 {
    (samples[at] * 65536 + samples[at + 1] * 256 + samples[at + 2] - 8388608) as i32
}

/// The bytes to the pixel of the PNGs that terrain comes in.
pub open spec fn terrain_channels(color: PngColor) -> Option<nat> {
    match color {
        PngColor::Rgb => Some(3),
        PngColor::Rgba => Some(4),
        PngColor::Grayscale | PngColor::Indexed | PngColor::GrayscaleAlpha => None,
    }
}

/// Whether a PNG can be read as terrain, where it is of a kind that terrain comes
/// in.
pub open spec fn terrain_sound(frame: (u32, u32, PngColor, Seq<u8>)) -> bool {
    match terrain_channels(frame.2) {
        Some(channels) => 4 * (frame.0 * frame.1) <= isize::MAX && frame.0 * frame.1 * channels
            <= frame.3.len(),
        None => true,
    }
}

/// The heights that a PNG stands for, or that its kind does not stand for any.
pub open spec fn terrain_shown(frame: (u32, u32, PngColor, Seq<u8>)) -> Result<
    (nat, nat, Seq<i32>),
    Seq<char>,
> {
    match terrain_channels(frame.2) {
        Some(channels) => Ok(
            (
                frame.0 as nat,
                frame.1 as nat,
                Seq::new(
                    (frame.0 * frame.1) as nat,
                    |i: int| height_of(frame.3, i * channels),
                ),
            ),
        ),
        None => Err("unsupported terrarium color type "@ + png_color_word(frame.2)),
    }
}

/// An outcome by its view.
pub open spec fn heights_view(outcome: Result<Heightmap, String>) -> Result<
    (nat, nat, Seq<i32>),
    Seq<char>,
> {
    match outcome {
        Ok(map) => Ok((map.w as nat, map.h as nat, map.data@)),
        Err(e) => Err(e@),
    }
}

/// A height lies between 32768 meters below and above the sea.
pub proof fn lemma_height_in_range(samples: Seq<u8>, at: int)
    ensures
        -8388608 <= height_of(samples, at) < 8388608,
        height_of(samples, at) + 8388608 == samples[at] * 65536 + samples[at + 1] * 256
            + samples[at + 2],
{
}

/// Reads a PNG as terrain.
pub fn terrain_of(frame: &PngFrame) -> (map: Result<Heightmap, String>)
    requires
        terrain_sound(frame@),
    ensures
        heights_view(map) == terrain_shown(frame@),
{
    let channels: usize = match frame.color {
        PngColor::Rgb => 3,
        PngColor::Rgba => 4,
        PngColor::Grayscale | PngColor::Indexed | PngColor::GrayscaleAlpha => {
            return Err(joined("unsupported terrarium color type ", frame.color.word()));
        },
    };
    let count: usize = pixel_count(frame.width, frame.height) as usize;
    let ghost all = Seq::new(
        (frame.width * frame.height) as nat,
        |i: int| height_of(frame.samples@, i * channels),
    );
    let mut data: Vec<i32> = Vec::new();
    let mut i: usize = 0;
    while i < count
        invariant
            count == frame.width * frame.height,
            channels == 3 || channels == 4,
            count * channels <= frame.samples.len(),
            i <= count,
            all == Seq::new(
                (frame.width * frame.height) as nat,
                |i: int| height_of(frame.samples@, i * channels),
            ),
            data@ == all.take(i as int),
        decreases count - i,
    {
        proof {
            lemma_sample_in_pixels(i as int, count as int, channels as int, 2);
        }
        let s: usize = i * channels;
        let r: i32 = frame.samples[s] as i32;
        let g: i32 = frame.samples[s + 1] as i32;
        let b: i32 = frame.samples[s + 2] as i32;
        data.push(r * 65536 + g * 256 + b - 8388608);
        i = i + 1;
        assert(data@ =~= all.take(i as int));
    }
    assert(all.take(i as int) =~= all);
    Ok(Heightmap { w: frame.width as usize, h: frame.height as usize, data })
}

/// The terrain that a PNG stands for.
pub open spec fn terrain_image(file: Seq<u8>) -> Result<(nat, nat, Seq<i32>), Seq<char>> {
    match png_decoded(file) {
        Ok(frame) => terrain_shown(frame),
        Err(e) => Err(e),
    }
}

/// Reads a PNG as terrain: red in steps of 256 meters, green in meters, blue in
/// parts of 256 to the meter, from 32768 meters below the sea.
pub fn decode_terrarium(bytes: &[u8]) -> (map: Result<Heightmap, String>)
    requires
        png_decoded(bytes@) matches Ok(frame) ==> terrain_sound(frame),
    ensures
        heights_view(map) == terrain_image(bytes@),
{
    match read_png(bytes) {
        Ok(frame) => terrain_of(&frame),
        Err(e) => Err(e),
    }
}

/// Reads a PNG as terrain, unless it has too few samples.
pub fn try_decode_terrarium(bytes: &[u8]) -> (map: Option<Result<Heightmap, String>>)
    ensures
        map is None <==> (png_decoded(bytes@) matches Ok(frame) && !terrain_sound(frame)),
        map matches Some(r) ==> heights_view(r) == terrain_image(bytes@),
{
    match read_png(bytes) {
        Ok(frame) => if frame.terrain_sound() {
            Some(terrain_of(&frame))
        } else {
            None
        },
        Err(e) => Some(Err(e)),
    }
}

/// A pixel of an image as red, green, blue and alpha. Where it has one sample, that is its
/// red, its green and its blue; where it has three or four, they are those in this order. It
/// is opaque unless it has a fourth.
pub proof fn lemma_pixel_is_kept(samples: Seq<u8>, channels: int, count: nat, p: int)
    requires
        0 <= p < count,
    ensures
        ({
            let out = rgba_of(samples, channels, count);
            &&& out.len() == 4 * count
            &&& channels == 1 ==> out[4 * p] == samples[p] && out[4 * p + 1] == samples[p] && out[4
                * p + 2] == samples[p] && out[4 * p + 3] == 255
            &&& channels == 3 ==> out[4 * p] == samples[3 * p] && out[4 * p + 1] == samples[3 * p
                + 1] && out[4 * p + 2] == samples[3 * p + 2] && out[4 * p + 3] == 255
            &&& channels == 4 ==> out[4 * p] == samples[4 * p] && out[4 * p + 1] == samples[4 * p
                + 1] && out[4 * p + 2] == samples[4 * p + 2] && out[4 * p + 3] == samples[4 * p
                + 3]
        }),
{
    assert(4 * p / 4 == p && (4 * p + 1) / 4 == p && (4 * p + 2) / 4 == p && (4 * p + 3) / 4 == p);
    assert(4 * p % 4 == 0 && (4 * p + 1) % 4 == 1 && (4 * p + 2) % 4 == 2 && (4 * p + 3) % 4 == 3);
}

/// What is shown of a PNG is as wide and as high as it, and its pixels are in their places.
/// One with a palette, or with gray and alpha, is not shown.
pub proof fn lemma_png_pixel(frame: (u32, u32, PngColor, Seq<u8>), p: int)
    requires
        0 <= p < frame.0 * frame.1,
    ensures
        ({
            let s = frame.3;
            match png_shown(frame) {
                Ok((w, h, out)) => {
                    &&& w == frame.0 && h == frame.1
                    &&& out.len() == 4 * (w * h)
                    &&& match frame.2 {
                        PngColor::Grayscale => out[4 * p] == s[p] && out[4 * p + 1] == s[p]
                            && out[4 * p + 2] == s[p] && out[4 * p + 3] == 255,
                        PngColor::Rgb => out[4 * p] == s[3 * p] && out[4 * p + 1] == s[3 * p + 1]
                            && out[4 * p + 2] == s[3 * p + 2] && out[4 * p + 3] == 255,
                        PngColor::Rgba => out[4 * p] == s[4 * p] && out[4 * p + 1] == s[4 * p + 1]
                            && out[4 * p + 2] == s[4 * p + 2] && out[4 * p + 3] == s[4 * p + 3],
                        PngColor::Indexed | PngColor::GrayscaleAlpha => false,
                    }
                },
                Err(_) => frame.2 == PngColor::Indexed || frame.2 == PngColor::GrayscaleAlpha,
            }
        }),
{
    let count = (frame.0 * frame.1) as nat;
    lemma_pixel_is_kept(frame.3, 1, count, p);
    lemma_pixel_is_kept(frame.3, 3, count, p);
    lemma_pixel_is_kept(frame.3, 4, count, p);
}

/// What is shown of a JPEG is as wide and as high as it, and its pixels are in their places.
/// One with two bytes of gray or with four inks is not shown.
pub proof fn lemma_jpeg_pixel(
    samples: Seq<u8>,
    width: u16,
    height: u16,
    color: JpegColor,
    p: int,
)
    requires
        0 <= p < width * height,
    ensures
        match jpeg_shown((samples, Some((width, height, color)))) {
            Ok((w, h, out)) => {
                &&& w == width && h == height
                &&& out.len() == 4 * (w * h)
                &&& match color {
                    JpegColor::L8 => out[4 * p] == samples[p] && out[4 * p + 1] == samples[p]
                        && out[4 * p + 2] == samples[p] && out[4 * p + 3] == 255,
                    JpegColor::Rgb24 => out[4 * p] == samples[3 * p] && out[4 * p + 1]
                        == samples[3 * p + 1] && out[4 * p + 2] == samples[3 * p + 2] && out[4 * p
                        + 3] == 255,
                    JpegColor::L16 | JpegColor::Cmyk32 => false,
                }
            },
            Err(_) => color == JpegColor::L16 || color == JpegColor::Cmyk32,
        },
        jpeg_shown((samples, None)) is Err,
{
    let count = (width * height) as nat;
    lemma_pixel_is_kept(samples, 1, count, p);
    lemma_pixel_is_kept(samples, 3, count, p);
}

/// Each pixel of terrain stands for the height that its own red, green and blue spell, with
/// or without an alpha, and the heights stand as the pixels do.
pub proof fn lemma_terrain_height(frame: (u32, u32, PngColor, Seq<u8>), p: int)
    requires
        0 <= p < frame.0 * frame.1,
    ensures
        ({
            let s = frame.3;
            match terrain_shown(frame) {
                Ok((w, h, heights)) => {
                    &&& w == frame.0 && h == frame.1
                    &&& heights.len() == w * h
                    &&& match frame.2 {
                        PngColor::Rgb => heights[p] == 65_536 * s[3 * p] + 256 * s[3 * p + 1] + s[3
                            * p + 2] - 8_388_608,
                        PngColor::Rgba => heights[p] == 65_536 * s[4 * p] + 256 * s[4 * p + 1]
                            + s[4 * p + 2] - 8_388_608,
                        PngColor::Grayscale
                        | PngColor::Indexed
                        | PngColor::GrayscaleAlpha => false,
                    }
                },
                Err(_) => frame.2 != PngColor::Rgb && frame.2 != PngColor::Rgba,
            }
        }),
{
    lemma_height_in_range(frame.3, p * 3);
    lemma_height_in_range(frame.3, p * 4);
}

/// A PNG that can be shown is laid out if and only if its pixels can be counted and held, and
/// it has all of their samples.
pub proof fn lemma_png_laid_out(width: u32, height: u32, color: PngColor, samples: Seq<u8>)
    ensures
        ({
            let count = width * height;
            let held = count <= u32::MAX && 4 * count <= isize::MAX;
            let sound = png_sound((width, height, color, samples));
            match color {
                PngColor::Grayscale => sound <==> held && count <= samples.len(),
                PngColor::Rgb => sound <==> held && 3 * count <= samples.len(),
                PngColor::Rgba => sound <==> held && 4 * count <= samples.len(),
                PngColor::Indexed | PngColor::GrayscaleAlpha => sound <==> held,
            }
        }),
{
    let count = width * height;
    assert(count * 3 == 3 * count && count * 4 == 4 * count && count * 1 == count);
}

/// A JPEG that can be shown is laid out if and only if its pixels can be held, and it has all
/// of their samples.
pub proof fn lemma_jpeg_laid_out(samples: Seq<u8>, width: u16, height: u16, color: JpegColor)
    ensures
        ({
            let count = width * height;
            let held = 4 * count <= isize::MAX;
            let sound = jpeg_sound((samples, Some((width, height, color))));
            match color {
                JpegColor::L8 => sound <==> held && count <= samples.len(),
                JpegColor::Rgb24 => sound <==> held && 3 * count <= samples.len(),
                JpegColor::L16 | JpegColor::Cmyk32 => sound <==> held,
            }
        }),
        jpeg_sound((samples, None)),
{
    let count = width * height;
    assert(count <= 65535 * 65535) by (nonlinear_arith)
        requires
            count == width * height,
            width <= 65535,
            height <= 65535,
    ;
    assert(count * 3 == 3 * count && count * 1 == count);
}

} // verus!
