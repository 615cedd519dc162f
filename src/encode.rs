//! Encoding an image as PNG with custom chunks placed before the pixel data.
use vstd::prelude::*;

use png::{BitDepth, ColorType};

use crate::chunk::{read_u32, record_bytes, u32_at, Chunk, Error};
use crate::decode::chunks_view;

verus! {

/// The pixel formats an image can come in.
#[derive(Debug, PartialEq, Eq, Clone, Copy, Structural)]
pub enum ColorFormat {
    A8,
    L1,
    La1,
    Rgb1,
    Rgba1,
    L2,
    La2,
    Rgb2,
    Rgba2,
    L4,
    La4,
    Rgb4,
    Rgba4,
    Rgb5x1,
    L8,
    La8,
    Rgb8,
    Rgba8,
    L16,
    La16,
    Rgb16,
    Rgba16,
    Bgr8,
    Bgra8,
    Rgb32F,
    Rgba32F,
    Cmyk8,
    Cmyk16,
    Unknown(u8),
}

/// The channels of a PNG image.
#[derive(Debug, PartialEq, Eq, Clone, Copy, Structural)]
pub enum PngColor {
    Grayscale,
    GrayscaleAlpha,
    Rgb,
    Rgba,
}

/// The bits per sample of a PNG image.
#[derive(Debug, PartialEq, Eq, Clone, Copy, Structural)]
pub enum PngDepth {
    Eight,
    Sixteen,
}

/// Errors of encoding an image.
#[derive(Debug)]
pub enum EncodingError {
    /// A custom chunk is invalid.
    Chunk(Error),
    /// The pixel format has no PNG counterpart.
    Unsupported(ColorFormat),
    /// The PNG encoder failed; the message is its own.
    Png(String),
    /// A dimension is zero, or the buffer does not hold exactly `width × height` pixels of the
    /// format.
    ImageSize,
    /// The encoded stream does not start with a signature and a header record.
    Framing,
    /// The output would not fit in memory.
    TooLarge,
}

/// The PNG channels and depth of a pixel format, if it has any.
pub open spec fn layout_of(c: ColorFormat) -> Option<(PngColor, PngDepth)> {
    match c {
        ColorFormat::L8 => Some((PngColor::Grayscale, PngDepth::Eight)),
        ColorFormat::L16 => Some((PngColor::Grayscale, PngDepth::Sixteen)),
        ColorFormat::La8 => Some((PngColor::GrayscaleAlpha, PngDepth::Eight)),
        ColorFormat::La16 => Some((PngColor::GrayscaleAlpha, PngDepth::Sixteen)),
        ColorFormat::Rgb8 => Some((PngColor::Rgb, PngDepth::Eight)),
        ColorFormat::Rgb16 => Some((PngColor::Rgb, PngDepth::Sixteen)),
        ColorFormat::Rgba8 => Some((PngColor::Rgba, PngDepth::Eight)),
        ColorFormat::Rgba16 => Some((PngColor::Rgba, PngDepth::Sixteen)),
        _ => None,
    }
}

/// Maps a pixel format to the PNG channels and depth that store it.
pub fn png_layout(c: ColorFormat) -> (r: Option<(PngColor, PngDepth)>)
    ensures
        r == layout_of(c),
{
    match c {
        ColorFormat::L8 => Some((PngColor::Grayscale, PngDepth::Eight)),
        ColorFormat::L16 => Some((PngColor::Grayscale, PngDepth::Sixteen)),
        ColorFormat::La8 => Some((PngColor::GrayscaleAlpha, PngDepth::Eight)),
        ColorFormat::La16 => Some((PngColor::GrayscaleAlpha, PngDepth::Sixteen)),
        ColorFormat::Rgb8 => Some((PngColor::Rgb, PngDepth::Eight)),
        ColorFormat::Rgb16 => Some((PngColor::Rgb, PngDepth::Sixteen)),
        ColorFormat::Rgba8 => Some((PngColor::Rgba, PngDepth::Eight)),
        ColorFormat::Rgba16 => Some((PngColor::Rgba, PngDepth::Sixteen)),
        _ => None,
    }
}

/// The PNG stream that the png encoder writes for these pixels: signature, header, pixel data
/// and end record.
pub uninterp spec fn png_encoded(
    pixels: Seq<u8>,
    width: u32,
    height: u32,
    color: PngColor,
    depth: PngDepth,
) -> Seq<u8>;

/// Samples per pixel.
pub open spec fn samples_of(c: PngColor) -> int {
    match c {
        PngColor::Grayscale => 1,
        PngColor::GrayscaleAlpha => 2,
        PngColor::Rgb => 3,
        PngColor::Rgba => 4,
    }
}

/// Bytes per sample.
pub open spec fn sample_bytes(d: PngDepth) -> int {
    match d {
        PngDepth::Eight => 1,
        PngDepth::Sixteen => 2,
    }
}

/// Bytes in one row of pixels.
pub open spec fn row_bytes(width: u32, c: PngColor, d: PngDepth) -> int {
    width * samples_of(c) * sample_bytes(d)
}

/// Neither dimension is zero, a buffer of `len` bytes holds exactly `width × height` pixels,
/// and the rows with their filter bytes fit in memory.
pub open spec fn pixels_fit(len: int, width: u32, height: u32, c: PngColor, d: PngDepth) -> bool {
    &&& width > 0
    &&& height > 0
    &&& len == row_bytes(width, c, d) * height
    &&& (row_bytes(width, c, d) + 1) * height <= usize::MAX
}

/// Relies on `png::Encoder` with default compression and adaptive filtering, writing into
/// memory: its output depends on the arguments alone. It fails only on a zero dimension or a
/// buffer of the wrong size, both left out here, and starts with the signature and the header
/// record.
#[verifier::external_body]
fn png_encode(buf: &[u8], width: u32, height: u32, color: PngColor, depth: PngDepth) -> (r:
    Result<Vec<u8>, String>)
    requires
        pixels_fit(buf@.len() as int, width, height, color, depth),
    ensures
        r is Ok,
        r matches Ok(v) ==> v@ == png_encoded(buf@, width, height, color, depth) && header_framed(
            v@,
        ),
{
    let mut out = Vec::new();
    let mut e = png::Encoder::new(&mut out, width, height);
    e.set_color(match color {
        PngColor::Grayscale => ColorType::Grayscale,
        PngColor::GrayscaleAlpha => ColorType::GrayscaleAlpha,
        PngColor::Rgb => ColorType::Rgb,
        PngColor::Rgba => ColorType::Rgba,
    });
    e.set_depth(if depth == PngDepth::Eight { BitDepth::Eight } else { BitDepth::Sixteen });
    e.set_compression(png::Compression::Default);
    e.set_adaptive_filter(png::AdaptiveFilterType::Adaptive);
    let mut w = e.write_header().map_err(|x| x.to_string())?;
    w.write_image_data(buf).map_err(|x| x.to_string())?;
    w.finish().map_err(|x| x.to_string())?;
    Ok(out)
}

/// Where the header record that follows the signature ends.
pub open spec fn header_end(e: Seq<u8>) -> int {
    20 + u32_at(e, 8)
}

/// The stream holds a signature and a complete header record.
pub open spec fn header_framed(e: Seq<u8>) -> bool {
    e.len() >= 12 && header_end(e) <= e.len()
}

/// The on-disk form of a list of (name, payload) records, one after another.
pub open spec fn records_bytes(cs: Seq<(Seq<u8>, Seq<u8>)>) -> Seq<u8>
    decreases cs.len(),
{
    if cs.len() == 0 {
        seq![]
    } else {
        records_bytes(cs.drop_last()) + record_bytes(cs.last().0, cs.last().1)
    }
}

/// The stream `e` with the records of `cs` put right after its header record.
pub open spec fn spliced(e: Seq<u8>, cs: Seq<(Seq<u8>, Seq<u8>)>) -> Seq<u8> {
    e.subrange(0, header_end(e)) + records_bytes(cs) + e.subrange(header_end(e), e.len() as int)
}

/// Every payload fits in a record's 32-bit length field.
pub open spec fn all_wf(cs: Seq<Chunk>) -> bool {
    forall|i: int| 0 <= i < cs.len() ==> #[trigger] cs[i].wf()
}

/// The outcome of putting the chunks `cs` into the PNG stream `e`.
pub open spec fn splice_result(e: Seq<u8>, cs: Seq<Chunk>) -> Result<Seq<u8>, EncodingError> {
    if !header_framed(e) {
        Err(EncodingError::Framing)
    } else if !all_wf(cs) {
        Err(EncodingError::Chunk(Error::DataLength))
    } else if spliced(e, chunks_view(cs)).len() > usize::MAX {
        Err(EncodingError::TooLarge)
    } else {
        Ok(spliced(e, chunks_view(cs)))
    }
}

proof fn lemma_records_len_grows(cs: Seq<(Seq<u8>, Seq<u8>)>, i: int, j: int)
    requires
        0 <= i <= j <= cs.len(),
    ensures
        records_bytes(cs.subrange(0, i)).len() <= records_bytes(cs.subrange(0, j)).len(),
    decreases j - i,
{
    if i < j {
        lemma_records_len_grows(cs, i, j - 1);
        assert(cs.subrange(0, j).drop_last() =~= cs.subrange(0, j - 1));
    }
}

/// Puts the records of `chunks`, in order, right after the header record of the PNG stream
/// `encoded`.
pub fn insert_chunks(encoded: &[u8], chunks: &Vec<Chunk>) -> (r: Result<Vec<u8>, EncodingError>)
    ensures
        match r {
            Ok(v) => splice_result(encoded@, chunks@) == Ok::<Seq<u8>, EncodingError>(v@),
            Err(e) => splice_result(encoded@, chunks@) == Err::<Seq<u8>, EncodingError>(e),
        },
{
    let ghost e = encoded@;
    let ghost view = chunks_view(chunks@);
    let n = encoded.len();
    if n < 12 {
        return Err(EncodingError::Framing);
    }
    let header_len = read_u32(encoded, 8);
    if (header_len as u64) + 20 > n as u64 {
        return Err(EncodingError::Framing);
    }
    let h = 20 + header_len as usize;
    assert(header_framed(e) && h == header_end(e));
    let mut i: usize = 0;
    while i < chunks.len()
        invariant
            0 <= i <= chunks@.len(),
            e == encoded@,
            header_framed(e),
            forall|j: int| 0 <= j < i ==> #[trigger] chunks@[j].wf(),
        decreases chunks@.len() - i,
    {
        if chunks[i].data.len() as u64 > 0xffff_ffffu64 {
            assert(!chunks@[i as int].wf());
            assert(!all_wf(chunks@));
            return Err(EncodingError::Chunk(Error::DataLength));
        }
        i = i + 1;
    }
    assert(all_wf(chunks@));
    let mut total: usize = n;
    i = 0;
    while i < chunks.len()
        invariant
            0 <= i <= chunks@.len(),
            view == chunks_view(chunks@),
            e == encoded@,
            n == e.len(),
            header_framed(e),
            all_wf(chunks@),
            h == header_end(e),
            total == n + records_bytes(view.subrange(0, i as int)).len(),
        decreases chunks@.len() - i,
    {
        let _name = chunks[i].chunk_type.to_ascii();
        let len = chunks[i].data.len();
        let ghost next = records_bytes(view.subrange(0, i + 1));
        proof {
            assert(view.subrange(0, i + 1).drop_last() =~= view.subrange(0, i as int));
            assert(next.len() == records_bytes(view.subrange(0, i as int)).len() + 12 + len);
        }
        if total > usize::MAX - 12 || len > usize::MAX - 12 - total {
            proof {
                lemma_records_len_grows(view, i + 1, view.len() as int);
                assert(view.subrange(0, view.len() as int) =~= view);
            }
            assert(spliced(e, view).len() == n + records_bytes(view).len());
            return Err(EncodingError::TooLarge);
        }
        total = total + 12 + len;
        i = i + 1;
    }
    assert(view.subrange(0, view.len() as int) =~= view);
    assert(spliced(e, view).len() == n + records_bytes(view).len());
    let mut out = vstd::slice::slice_to_vec(vstd::slice::slice_subrange(encoded, 0, h));
    i = 0;
    while i < chunks.len()
        invariant
            0 <= i <= chunks@.len(),
            view == chunks_view(chunks@),
            n == e.len(),
            header_framed(e),
            all_wf(chunks@),
            h == header_end(e),
            total == n + records_bytes(view).len(),
            total <= usize::MAX,
            out@ == e.subrange(0, h as int) + records_bytes(view.subrange(0, i as int)),
        decreases chunks@.len() - i,
    {
        proof {
            lemma_records_len_grows(view, i + 1, view.len() as int);
            assert(view.subrange(0, i + 1).drop_last() =~= view.subrange(0, i as int));
            assert(view.subrange(0, view.len() as int) =~= view);
            assert(chunks@[i as int].wf());
        }
        let _name = chunks[i].chunk_type.to_ascii();
        chunks[i].write_to(&mut out);
        proof {
            let sub = view.subrange(0, i + 1);
            assert(sub.last() == view[i as int]);
            assert(view[i as int] == (chunks@[i as int].chunk_type@, chunks@[i as int].data@));
            assert(records_bytes(sub) == records_bytes(view.subrange(0, i as int))
                + record_bytes(view[i as int].0, view[i as int].1));
            assert(out@ =~= e.subrange(0, h as int) + records_bytes(sub));
        }
        i = i + 1;
    }
    assert(view.subrange(0, view.len() as int) =~= view);
    let mut k: usize = h;
    while k < n
        invariant
            h <= k <= n,
            n == e.len(),
            encoded@ == e,
            total == n + records_bytes(view).len(),
            total <= usize::MAX,
            out@ == e.subrange(0, h as int) + records_bytes(view) + e.subrange(h as int, k as int),
        decreases n - k,
    {
        out.push(encoded[k]);
        k = k + 1;
        assert(out@ =~= e.subrange(0, h as int) + records_bytes(view) + e.subrange(
            h as int,
            k as int,
        ));
    }
    Ok(out)
}

/// PNG encoder, including custom chunks.
pub struct Encoder {
    /// The chunks to place before the image data, in order.
    pub custom_chunks: Vec<Chunk>,
}

impl Encoder {
    /// Create a new encoder with no custom chunks.
    pub fn new() -> (r: Self)
        ensures
            r.custom_chunks@.len() == 0,
    {
        Encoder { custom_chunks: Vec::new() }
    }

    /// Add a custom chunk, which will be placed before the image data.
    pub fn with_custom_chunk(self, chunk: Chunk) -> (r: Self)
        ensures
            r.custom_chunks@ == self.custom_chunks@.push(chunk),
    {
        let mut custom_chunks = self.custom_chunks;
        custom_chunks.push(chunk);
        Encoder { custom_chunks }
    }

    /// Encodes the pixels as a PNG stream whose custom chunks follow the header record.
    pub fn write_image(self, buf: &[u8], width: u32, height: u32, color_type: ColorFormat) -> (r:
        Result<Vec<u8>, EncodingError>)
        ensures
            match layout_of(color_type) {
                None => r matches Err(e) && e == EncodingError::Unsupported(color_type),
                Some((c, d)) => if !pixels_fit(buf@.len() as int, width, height, c, d) {
                    r matches Err(EncodingError::ImageSize)
                } else {
                    &&& header_framed(png_encoded(buf@, width, height, c, d))
                    &&& match r {
                        Ok(v) => splice_result(
                            png_encoded(buf@, width, height, c, d),
                            self.custom_chunks@,
                        ) == Ok::<Seq<u8>, EncodingError>(v@),
                        Err(e) => splice_result(
                            png_encoded(buf@, width, height, c, d),
                            self.custom_chunks@,
                        ) == Err::<Seq<u8>, EncodingError>(e),
                    }
                },
            },
    {
        let (color, depth) = match png_layout(color_type) {
            Some(l) => l,
            None => return Err(EncodingError::Unsupported(color_type)),
        };
        let samples: u128 = match color {
            PngColor::Grayscale => 1,
            PngColor::GrayscaleAlpha => 2,
            PngColor::Rgb => 3,
            PngColor::Rgba => 4,
        };
        let bytes: u128 = match depth {
            PngDepth::Eight => 1,
            PngDepth::Sixteen => 2,
        };
        let w = width as u128;
        let h = height as u128;
        assert(w * samples <= 4 * 0xffff_ffff) by (nonlinear_arith)
            requires
                w <= 0xffff_ffff,
                samples <= 4,
        ;
        assert(w * samples * bytes <= 8 * 0xffff_ffff) by (nonlinear_arith)
            requires
                w * samples <= 4 * 0xffff_ffff,
                bytes <= 2,
        ;
        let row = w * samples * bytes;
        assert((row + 1) * h <= (8 * 0xffff_ffff + 1) * 0xffff_ffff) by (nonlinear_arith)
            requires
                row <= 8 * 0xffff_ffff,
                h <= 0xffff_ffff,
        ;
        assert(row * h <= (row + 1) * h) by (nonlinear_arith);
        assert(row == row_bytes(width, color, depth));
        if width == 0 || height == 0 || row * h != buf.len() as u128 || (row + 1) * h
            > usize::MAX as u128 {
            return Err(EncodingError::ImageSize);
        }
        let encoded = match png_encode(buf, width, height, color, depth) {
            Ok(v) => v,
            Err(m) => return Err(EncodingError::Png(m)),
        };
        insert_chunks(encoded.as_slice(), &self.custom_chunks)
    }
}

} // verus!
