//! Pictures as PNG streams and files, through the `png` and `image` crates.
use vstd::prelude::*;
use vstd::string::*;

use crate::bytes::{has_at, holds_at};
use crate::raster::{Image, Raster};
use crate::text::{same_but_for_case, same_text_but_for_case};

verus! {

/// The most bytes that `image` lets a decoded picture take: 512 MiB.
pub const DECODE_LIMIT: u64 = 536870912;

/// The type of the chunk that holds the palette of a PNG: "PLTE".
pub const PALETTE_CHUNK: [u8; 4] = [80u8, 76, 84, 69];

/// The type of the chunk that says how many frames an animated PNG has: "acTL".
pub const ANIMATION_CHUNK: [u8; 4] = [97u8, 99, 84, 76];

/// How a PNG begins.
pub const PNG_SIGNATURE: [u8; 8] = [137u8, 80, 78, 71, 13, 10, 26, 10];

/// How the formats of `image` other than PNG begin; a PNM begins with `P` and a digit from 1 to 7.
pub const JPEG_SIGNATURE: [u8; 3] = [0xffu8, 0xd8, 0xff];

/// "GIF89a".
pub const GIF89_SIGNATURE: [u8; 6] = [71u8, 73, 70, 56, 57, 97];

/// "GIF87a".
pub const GIF87_SIGNATURE: [u8; 6] = [71u8, 73, 70, 56, 55, 97];

/// "RIFF", of WebP.
pub const RIFF_SIGNATURE: [u8; 4] = [82u8, 73, 70, 70];

/// "MM", 0, "*".
pub const TIFF_BIG_SIGNATURE: [u8; 4] = [77u8, 77, 0, 42];

/// "II*", 0.
pub const TIFF_LITTLE_SIGNATURE: [u8; 4] = [73u8, 73, 42, 0];

/// "DDS ".
pub const DDS_SIGNATURE: [u8; 4] = [68u8, 68, 83, 32];

/// "BM".
pub const BMP_SIGNATURE: [u8; 2] = [66u8, 77];

/// 0, 0, 1, 0.
pub const ICO_SIGNATURE: [u8; 4] = [0u8, 0, 1, 0];

/// "#?RADIANCE".
pub const HDR_SIGNATURE: [u8; 10] = [35u8, 63, 82, 65, 68, 73, 65, 78, 67, 69];

/// "farbfeld".
pub const FARBFELD_SIGNATURE: [u8; 8] = [102u8, 97, 114, 98, 102, 101, 108, 100];

/// Three zeros, a space, "ftypavif".
pub const AVIF_SIGNATURE: [u8; 12] = [0u8, 0, 0, 32, 102, 116, 121, 112, 97, 118, 105, 102];

/// Three zeros, 28, "ftypavif".
pub const AVIF_SHORT_SIGNATURE: [u8; 12] = [0u8, 0, 0, 28, 102, 116, 121, 112, 97, 118, 105, 102];

/// The number that OpenEXR files begin with.
pub const EXR_SIGNATURE: [u8; 4] = [0x76u8, 0x2f, 0x31, 0x01];

/// "qoif".
pub const QOI_SIGNATURE: [u8; 4] = [113u8, 111, 105, 102];

/// The bytes that `png::Encoder` writes for a picture of eight bits a channel with alpha.
pub uninterp spec fn png_stream(width: u32, height: u32, pixels: Seq<u8>) -> Seq<u8>;

/// The bytes that the `PngEncoder` of `image` writes for the same kind of picture.
pub uninterp spec fn png_file(width: u32, height: u32, pixels: Seq<u8>) -> Seq<u8>;

/// What the PNG decoder of `image` makes of the bytes under its default limits.
pub uninterp spec fn decoded_png(bytes: Seq<u8>) -> Option<Raster>;

/// Whether the PNG decoder of `image` accepts the bytes without limits.
pub uninterp spec fn png_decodes(bytes: Seq<u8>) -> bool;

/// The stream that stores a picture inside a blob.
pub open spec fn stream_of(picture: Raster) -> Seq<u8> {
    png_stream(picture.width, picture.height, picture.pixels)
}

/// The file that a picture is saved as.
pub open spec fn file_of(picture: Raster) -> Seq<u8> {
    png_file(picture.width, picture.height, picture.pixels)
}

/// Whether the bytes begin with the PNG signature.
pub open spec fn is_png(bytes: Seq<u8>) -> bool {
    has_at(bytes, 0, PNG_SIGNATURE@)
}

/// The big-endian number at `at`.
pub open spec fn be32_at(bytes: Seq<u8>, at: int) -> int {
    16777216 * bytes[at] + 65536 * bytes[at + 1] + 256 * bytes[at + 2] + bytes[at + 3]
}

/// The bytes that the pixels of a PNG take with four channels of the depth that its header declares.
pub open spec fn declared_size(bytes: Seq<u8>) -> int {
    be32_at(bytes, 16) * be32_at(bytes, 20) * (if bytes[24] == 16 {
        8int
    } else {
        4int
    })
}

/// Whether the decoder takes a chunk of a PNG without panicking: the palette of a PNG with indexed
/// colours has whole entries and no more than 256 of them, and the number of frames of an animated
/// PNG can be counted up.
pub open spec fn chunk_fits(bytes: Seq<u8>, at: int) -> bool {
    let length = be32_at(bytes, at);
    &&& has_at(bytes, at + 4, PALETTE_CHUNK@) && bytes[25] == 3 ==> length % 3 == 0 && length
        <= 768
    &&& has_at(bytes, at + 4, ANIMATION_CHUNK@) && at + 12 <= bytes.len() ==> be32_at(
        bytes,
        at + 8,
    ) < u32::MAX
}

/// Whether the decoder takes the chunks of a PNG from `at` on.
pub open spec fn chunks_fit(bytes: Seq<u8>, at: int) -> bool
    decreases bytes.len() - at,
{
    0 <= at && at + 8 <= bytes.len() ==> {
        let next = at + 12 + be32_at(bytes, at);
        chunk_fits(bytes, at) && (next <= bytes.len() ==> chunks_fit(bytes, next))
    }
}

/// Whether the decoder takes bytes, if they are a PNG, without panicking: the first chunk is not
/// empty, so that it is the header, the picture keeps to the decoder's limit, and the chunks fit.
pub open spec fn is_tame(bytes: Seq<u8>) -> bool {
    is_png(bytes) && bytes.len() > 28 ==> {
        &&& be32_at(bytes, 8) > 0
        &&& declared_size(bytes) <= DECODE_LIMIT
        &&& chunks_fit(bytes, 8)
    }
}

/// Whether a character separates the parts of a path on some system.
pub open spec fn is_separator(c: char) -> bool {
    c == '/' || c == '\\' || c == ':'
}

/// Whether a file of this name is decoded as a PNG: it ends in `.png`, in upper or lower case,
/// behind a character that separates no path.
pub open spec fn png_named(name: Seq<char>) -> bool {
    let n = name.len() as int;
    &&& n >= 5
    &&& !is_separator(name[n - 5])
    &&& name[n - 4] == '.'
    &&& name[n - 3] == 'p' || name[n - 3] == 'P'
    &&& name[n - 2] == 'n' || name[n - 2] == 'N'
    &&& name[n - 1] == 'g' || name[n - 1] == 'G'
}

/// The place of the last dot of a name, -1 where there is none.
pub open spec fn last_dot(name: Seq<char>) -> int
    decreases name.len(),
{
    if name.len() == 0 {
        -1
    } else if name.last() == '.' {
        name.len() - 1
    } else {
        last_dot(name.drop_last())
    }
}

/// Whether `image` has a format for this extension.
pub open spec fn known_extension(text: Seq<char>) -> bool {
    ||| same_but_for_case(text, "avif"@)
    ||| same_but_for_case(text, "jpg"@)
    ||| same_but_for_case(text, "jpeg"@)
    ||| same_but_for_case(text, "png"@)
    ||| same_but_for_case(text, "gif"@)
    ||| same_but_for_case(text, "webp"@)
    ||| same_but_for_case(text, "tif"@)
    ||| same_but_for_case(text, "tiff"@)
    ||| same_but_for_case(text, "tga"@)
    ||| same_but_for_case(text, "dds"@)
    ||| same_but_for_case(text, "bmp"@)
    ||| same_but_for_case(text, "ico"@)
    ||| same_but_for_case(text, "hdr"@)
    ||| same_but_for_case(text, "exr"@)
    ||| same_but_for_case(text, "pbm"@)
    ||| same_but_for_case(text, "pam"@)
    ||| same_but_for_case(text, "ppm"@)
    ||| same_but_for_case(text, "pgm"@)
    ||| same_but_for_case(text, "ff"@)
    ||| same_but_for_case(text, "farbfeld"@)
    ||| same_but_for_case(text, "qoi"@)
}

/// Whether a name has no extension that `image` has a format for: it has no dot, or what follows
/// the last one is another extension.
pub open spec fn unknown_named(name: Seq<char>) -> bool {
    let end = name.skip(last_dot(name) + 1);
    last_dot(name) < 0 || {
        &&& end.len() > 0
        &&& forall|i: int| 0 <= i < end.len() ==> !is_separator(#[trigger] end[i])
        &&& !known_extension(end)
    }
}

/// Whether a file of this name is decoded here, if the decoder takes it: as a PNG, or not at all.
pub open spec fn covers_name(name: Seq<char>) -> bool {
    png_named(name) || unknown_named(name)
}

/// Whether a file is decoded here: as a PNG that the decoder takes, or not at all.
pub open spec fn covers_file(name: Seq<char>, bytes: Seq<u8>) -> bool {
    covers_name(name) && (png_named(name) ==> is_tame(bytes))
}

/// What a file that is covered decodes to.
pub open spec fn file_picture(name: Seq<char>, bytes: Seq<u8>) -> Option<Raster> {
    if png_named(name) {
        decoded_png(bytes)
    } else {
        None
    }
}

/// Whether bytes begin like one of the formats of `image` other than PNG.
pub open spec fn other_signature(bytes: Seq<u8>) -> bool {
    ||| has_at(bytes, 0, JPEG_SIGNATURE@)
    ||| has_at(bytes, 0, GIF89_SIGNATURE@)
    ||| has_at(bytes, 0, GIF87_SIGNATURE@)
    ||| has_at(bytes, 0, RIFF_SIGNATURE@)
    ||| has_at(bytes, 0, TIFF_BIG_SIGNATURE@)
    ||| has_at(bytes, 0, TIFF_LITTLE_SIGNATURE@)
    ||| has_at(bytes, 0, DDS_SIGNATURE@)
    ||| has_at(bytes, 0, BMP_SIGNATURE@)
    ||| has_at(bytes, 0, ICO_SIGNATURE@)
    ||| has_at(bytes, 0, HDR_SIGNATURE@)
    ||| has_at(bytes, 0, FARBFELD_SIGNATURE@)
    ||| has_at(bytes, 0, AVIF_SIGNATURE@)
    ||| has_at(bytes, 0, AVIF_SHORT_SIGNATURE@)
    ||| has_at(bytes, 0, EXR_SIGNATURE@)
    ||| has_at(bytes, 0, QOI_SIGNATURE@)
    ||| bytes.len() >= 2 && bytes[0] == 80 && 49 <= bytes[1] && bytes[1] <= 55
}

/// Whether bytes are decoded here: as a PNG that the decoder takes, or not at all.
pub open spec fn covers_bytes(bytes: Seq<u8>) -> bool {
    !other_signature(bytes) && is_tame(bytes)
}

/// A PNG that the decoder takes is covered.
pub proof fn lemma_png_is_covered(bytes: Seq<u8>)
    requires
        is_png(bytes),
        is_tame(bytes),
    ensures
        covers_bytes(bytes),
{
    assert(bytes[0] == bytes.subrange(0, 8)[0]);
    lemma_begins_otherwise(bytes, JPEG_SIGNATURE@);
    lemma_begins_otherwise(bytes, GIF89_SIGNATURE@);
    lemma_begins_otherwise(bytes, GIF87_SIGNATURE@);
    lemma_begins_otherwise(bytes, RIFF_SIGNATURE@);
    lemma_begins_otherwise(bytes, TIFF_BIG_SIGNATURE@);
    lemma_begins_otherwise(bytes, TIFF_LITTLE_SIGNATURE@);
    lemma_begins_otherwise(bytes, DDS_SIGNATURE@);
    lemma_begins_otherwise(bytes, BMP_SIGNATURE@);
    lemma_begins_otherwise(bytes, ICO_SIGNATURE@);
    lemma_begins_otherwise(bytes, HDR_SIGNATURE@);
    lemma_begins_otherwise(bytes, FARBFELD_SIGNATURE@);
    lemma_begins_otherwise(bytes, AVIF_SIGNATURE@);
    lemma_begins_otherwise(bytes, AVIF_SHORT_SIGNATURE@);
    lemma_begins_otherwise(bytes, EXR_SIGNATURE@);
    lemma_begins_otherwise(bytes, QOI_SIGNATURE@);
}

proof fn lemma_begins_otherwise(bytes: Seq<u8>, part: Seq<u8>)
    requires
        bytes.len() > 0,
        part.len() > 0,
        bytes[0] != part[0],
    ensures
        !has_at(bytes, 0, part),
{
    if has_at(bytes, 0, part) {
        assert(bytes.subrange(0, part.len() as int)[0] == bytes[0]);
    }
}

/// What bytes that are covered decode to.
pub open spec fn payload_picture(bytes: Seq<u8>) -> Option<Raster> {
    if is_png(bytes) {
        decoded_png(bytes)
    } else {
        None
    }
}

/// Whether a picture survives being stored: the stream is a PNG, and, within the decoder's limit,
/// one that the decoder takes, that decodes to the picture and that is shorter than 4 GiB. A larger
/// picture does not decode.
pub open spec fn stored_faithfully(picture: Raster, bytes: Seq<u8>) -> bool {
    &&& is_png(bytes)
    &&& picture.size() <= DECODE_LIMIT ==> {
        &&& is_tame(bytes)
        &&& decoded_png(bytes) == Some(picture)
        &&& png_decodes(bytes)
        &&& bytes.len() <= u32::MAX
    }
    &&& picture.size() > DECODE_LIMIT ==> decoded_png(bytes) is None
}

/// Whether bytes that are covered pass the check without limits.
pub open spec fn payload_passes(bytes: Seq<u8>) -> bool {
    is_png(bytes) && png_decodes(bytes)
}

/// What a decoder returned, as a picture or none.
pub open spec fn picture_of(outcome: Result<Image, image::ImageError>) -> Option<Raster> {
    match outcome {
        Ok(image) => Some(image@),
        Err(_) => None,
    }
}

/// Encodes a picture with `png::Encoder`, as RGBA with eight bits a channel.
///
/// The encoder refuses a picture without pixels and no other one whose pixel bytes are as many as
/// its dimensions ask for. What it writes is the PNG signature and the header, data and end chunks.
/// Where the picture keeps to the limit of the decoder of `image`, it decodes to the same picture,
/// with limits or without: PNG is lossless. It is then shorter than 4 GiB, since deflate spends less
/// than two bytes on each of its at most 640 MiB. A larger picture is refused by the decoder with
/// its limits.
#[verifier::external_body]
pub(crate) fn encode_png(image: &Image) -> (outcome: Result<Vec<u8>, png::EncodingError>)
    requires
        image@.wf(),
    ensures
        outcome is Ok == (image.width != 0 && image.height != 0),
        outcome matches Ok(bytes) ==> bytes@ == png_stream(image.width, image.height, image.pixels@),
        outcome matches Ok(bytes) ==> is_png(bytes@),
        outcome matches Ok(bytes) ==> image@.size() <= DECODE_LIMIT ==> is_tame(bytes@),
        outcome matches Ok(bytes) ==> image@.size() <= DECODE_LIMIT ==> decoded_png(bytes@) == Some(
            image@,
        ),
        outcome matches Ok(bytes) ==> image@.size() <= DECODE_LIMIT ==> png_decodes(bytes@),
        outcome matches Ok(bytes) ==> image@.size() <= DECODE_LIMIT ==> bytes@.len() <= u32::MAX,
        outcome matches Ok(bytes) ==> DECODE_LIMIT < image@.size() ==> decoded_png(bytes@) is None,
{
    let mut bytes = Vec::new();
    {
        let mut encoder = png::Encoder::new(&mut bytes, image.width, image.height);
        encoder.set_color(png::ColorType::Rgba);
        encoder.set_depth(png::BitDepth::Eight);
        let mut writer = encoder.write_header()?;
        writer.write_image_data(&image.pixels)?;
    }
    Ok(bytes)
}

/// Encodes a picture as the PNG file that `save` of `image` writes: with its `PngEncoder`, which
/// hands the picture to `png::Encoder`. What is claimed of [`encode_png`] holds here too.
#[verifier::external_body]
pub(crate) fn encode_file(image: &Image) -> (outcome: Result<Vec<u8>, image::ImageError>)
    requires
        image@.wf(),
    ensures
        outcome is Ok == (image.width != 0 && image.height != 0),
        outcome matches Ok(bytes) ==> bytes@ == png_file(image.width, image.height, image.pixels@),
        outcome matches Ok(bytes) ==> is_png(bytes@),
        outcome matches Ok(bytes) ==> image@.size() <= DECODE_LIMIT ==> is_tame(bytes@),
        outcome matches Ok(bytes) ==> image@.size() <= DECODE_LIMIT ==> decoded_png(bytes@) == Some(
            image@,
        ),
        outcome matches Ok(bytes) ==> image@.size() <= DECODE_LIMIT ==> png_decodes(bytes@),
        outcome matches Ok(bytes) ==> image@.size() <= DECODE_LIMIT ==> bytes@.len() <= u32::MAX,
        outcome matches Ok(bytes) ==> DECODE_LIMIT < image@.size() ==> decoded_png(bytes@) is None,
{
    let mut bytes = Vec::new();
    let encoder = image::codecs::png::PngEncoder::new(&mut bytes);
    image::ImageEncoder::write_image(
        encoder,
        &image.pixels,
        image.width,
        image.height,
        image::ColorType::Rgba8,
    )?;
    Ok(bytes)
}

/// Decodes the contents of a file with `image::io::Reader`, which tells the format from the name
/// and applies its default limits, and converts the picture to RGBA with eight bits a channel.
///
/// A file named as a PNG is given to the PNG decoder; one without a known extension is refused. The
/// other formats are left out as a whole: the WebP decoder panics on an extended file whose canvas
/// has another size than its frame, that of HDR on some runs, that of PNM on some bitmaps without
/// rows, and of the rest it is not shown that they never do. Of the PNGs those are left out on which
/// the decoder panics: with a palette of broken or too many entries, with as many frames as can be
/// counted, or so large that they cannot be addressed everywhere; and those with an empty chunk
/// before their header, whose size and colours the first bytes do not tell.
#[verifier::external_body]
pub(crate) fn decode_file(name: &str, bytes: &[u8]) -> (outcome: Result<Image, image::ImageError>)
    requires
        covers_file(name@, bytes@),
    ensures
        outcome matches Ok(image) ==> image@.wf(),
        png_named(name@) ==> picture_of(outcome) == decoded_png(bytes@),
        !png_named(name@) ==> outcome is Err,
{
    let mut reader = image::io::Reader::new(std::io::Cursor::new(bytes));
    if let Ok(format) = image::ImageFormat::from_path(name) {
        reader.set_format(format);
    }
    let picture = reader.decode()?.into_rgba8();
    Ok(Image { width: picture.width(), height: picture.height(), pixels: picture.into_raw() })
}

/// Decodes bytes with `image::io::Reader`, which guesses the format from how they begin and
/// applies its default limits, and converts the picture to RGBA with eight bits a channel.
///
/// Bytes with the PNG signature are given to the PNG decoder; those with no known signature are
/// refused. The other formats, and the PNGs on which the decoder panics, are left out as in
/// [`decode_file`].
#[verifier::external_body]
pub(crate) fn decode_guessed(bytes: &[u8]) -> (outcome: Result<Image, image::ImageError>)
    requires
        covers_bytes(bytes@),
    ensures
        outcome matches Ok(image) ==> image@.wf(),
        is_png(bytes@) ==> picture_of(outcome) == decoded_png(bytes@),
        !is_png(bytes@) ==> outcome is Err,
{
    let reader = image::io::Reader::new(std::io::Cursor::new(bytes)).with_guessed_format()?;
    let picture = reader.decode()?.into_rgba8();
    Ok(Image { width: picture.width(), height: picture.height(), pixels: picture.into_raw() })
}

/// Decodes bytes with `image::io::Reader`, the format guessed and no limits set, and drops the
/// picture.
///
/// Bytes with the PNG signature are given to the PNG decoder; those with no known signature are
/// refused. The other formats, and the PNGs on which the decoder panics, are left out as in
/// [`decode_file`].
#[verifier::external_body]
pub(crate) fn check_unlimited(bytes: &[u8]) -> (outcome: Result<(), image::ImageError>)
    requires
        covers_bytes(bytes@),
    ensures
        is_png(bytes@) ==> outcome is Ok == png_decodes(bytes@),
        !is_png(bytes@) ==> outcome is Err,
{
    let mut reader = image::io::Reader::new(std::io::Cursor::new(bytes)).with_guessed_format()?;
    reader.no_limits();
    reader.decode()?.into_rgba8();
    Ok(())
}

/// Reads four bytes of a big-endian number.
fn read_be32(bytes: &[u8], at: usize) -> (value: u64)
    requires
        at + 4 <= bytes@.len(),
    ensures
        value == be32_at(bytes@, at as int),
        value <= u32::MAX,
{
    16777216 * (bytes[at] as u64) + 65536 * (bytes[at + 1] as u64) + 256 * (bytes[at + 2] as u64)
        + bytes[at + 3] as u64
}

/// Whether the decoder takes a chunk.
fn check_chunk(bytes: &[u8], at: usize) -> (fits: bool)
    requires
        28 < bytes@.len(),
        at + 8 <= bytes@.len(),
    ensures
        fits == chunk_fits(bytes@, at as int),
{
    assert(bytes@.len() == bytes.len());
    let length: u64 = read_be32(bytes, at);
    if holds_at(bytes, at + 4, PALETTE_CHUNK.as_slice()) && bytes[25] == 3 && (length % 3 != 0
        || length > 768) {
        return false;
    }
    if holds_at(bytes, at + 4, ANIMATION_CHUNK.as_slice()) && bytes.len() - at >= 12 {
        return read_be32(bytes, at + 8) < u32::MAX as u64;
    }
    true
}

/// Whether the decoder takes the chunks of a PNG.
fn check_chunks(bytes: &[u8]) -> (fit: bool)
    requires
        28 < bytes@.len(),
    ensures
        fit == chunks_fit(bytes@, 8),
{
    assert(bytes@.len() == bytes.len());
    let mut at: usize = 8;
    while bytes.len() - at >= 8
        invariant
            28 < bytes@.len(),
            bytes@.len() == bytes.len(),
            8 <= at <= bytes@.len(),
            chunks_fit(bytes@, 8) == chunks_fit(bytes@, at as int),
        decreases bytes@.len() - at,
    {
        if !check_chunk(bytes, at) {
            return false;
        }
        let length: u64 = read_be32(bytes, at);
        let left: u64 = (bytes.len() - at) as u64;
        if left < 12 + length {
            return true;
        }
        at = at + 12 + length as usize;
    }
    true
}

/// Whether the decoder takes bytes, if they are a PNG.
fn check_tame(bytes: &[u8]) -> (tame: bool)
    ensures
        tame == is_tame(bytes@),
{
    if bytes.len() <= 28 || !holds_at(bytes, 0, PNG_SIGNATURE.as_slice()) {
        return true;
    }
    let width: u128 = read_be32(bytes, 16) as u128;
    let height: u128 = read_be32(bytes, 20) as u128;
    let depth: u128 = if bytes[24] == 16 {
        8
    } else {
        4
    };
    assert(0 <= width * height <= u32::MAX * u32::MAX) by (nonlinear_arith)
        requires
            0 <= width <= u32::MAX,
            0 <= height <= u32::MAX,
    ;
    let area: u128 = width * height;
    assert(area * depth <= u32::MAX * u32::MAX * 8) by (nonlinear_arith)
        requires
            0 <= area <= u32::MAX * u32::MAX,
            0 <= depth <= 8,
    ;
    read_be32(bytes, 8) > 0 && area * depth <= DECODE_LIMIT as u128 && check_chunks(bytes)
}

/// Whether a file is decoded by [`decode_picture`].
pub fn can_decode(name: &str, bytes: &[u8]) -> (can: bool)
    ensures
        can == covers_file(name@, bytes@),
{
    can_decode_named(name) && (!is_png_named(name) || check_tame(bytes))
}

/// Whether a file of this name is decoded as a PNG.
fn is_png_named(name: &str) -> (named: bool)
    ensures
        named == png_named(name@),
{
    let count: usize = name.unicode_len();
    if count < 5 {
        return false;
    }
    let before: char = name.get_char(count - 5);
    let p: char = name.get_char(count - 3);
    let n: char = name.get_char(count - 2);
    let g: char = name.get_char(count - 1);
    before != '/' && before != '\\' && before != ':' && name.get_char(count - 4) == '.' && (p == 'p'
        || p == 'P') && (n == 'n' || n == 'N') && (g == 'g' || g == 'G')
}

/// Whether files of this name are decoded by [`decode_picture`], if the decoder takes them.
fn can_decode_named(name: &str) -> (can: bool)
    ensures
        can == covers_name(name@),
{
    if is_png_named(name) {
        return true;
    }
    let count: usize = name.unicode_len();
    let mut dot: usize = count;
    assert(name@.take(count as int) =~= name@);
    while dot > 0 && name.get_char(dot - 1) != '.'
        invariant
            count == name@.len(),
            dot <= count,
            last_dot(name@) == last_dot(name@.take(dot as int)),
        decreases dot,
    {
        assert(name@.take(dot as int).drop_last() =~= name@.take(dot - 1));
        dot = dot - 1;
    }
    if dot == 0 {
        assert(name@.take(0) =~= Seq::<char>::empty());
        return true;
    }
    assert(name@.take(dot as int).last() == '.');
    assert(last_dot(name@) == dot - 1);
    let end = name.substring_char(dot, count);
    assert(end@ =~= name@.skip(last_dot(name@) + 1));
    let length: usize = count - dot;
    if length == 0 {
        return false;
    }
    let mut i: usize = 0;
    while i < length
        invariant
            length == end@.len(),
            i <= length,
            end@ == name@.skip(last_dot(name@) + 1),
            last_dot(name@) >= 0,
            !png_named(name@),
            forall|k: int| 0 <= k < i ==> !is_separator(#[trigger] end@[k]),
        decreases length - i,
    {
        let c: char = end.get_char(i);
        if c == '/' || c == '\\' || c == ':' {
            assert(is_separator(end@[i as int]));
            return false;
        }
        i = i + 1;
    }
    let known: bool = same_text_but_for_case(end, "avif")
        || same_text_but_for_case(end, "jpg")
        || same_text_but_for_case(end, "jpeg")
        || same_text_but_for_case(end, "png")
        || same_text_but_for_case(end, "gif")
        || same_text_but_for_case(end, "webp")
        || same_text_but_for_case(end, "tif")
        || same_text_but_for_case(end, "tiff")
        || same_text_but_for_case(end, "tga")
        || same_text_but_for_case(end, "dds")
        || same_text_but_for_case(end, "bmp")
        || same_text_but_for_case(end, "ico")
        || same_text_but_for_case(end, "hdr")
        || same_text_but_for_case(end, "exr")
        || same_text_but_for_case(end, "pbm")
        || same_text_but_for_case(end, "pam")
        || same_text_but_for_case(end, "ppm")
        || same_text_but_for_case(end, "pgm")
        || same_text_but_for_case(end, "ff")
        || same_text_but_for_case(end, "farbfeld")
        || same_text_but_for_case(end, "qoi");
    !known
}

/// Whether bytes are decoded here.
pub fn can_decode_bytes(bytes: &[u8]) -> (can: bool)
    ensures
        can == covers_bytes(bytes@),
{
    let other: bool = holds_at(bytes, 0, JPEG_SIGNATURE.as_slice())
        || holds_at(bytes, 0, GIF89_SIGNATURE.as_slice())
        || holds_at(bytes, 0, GIF87_SIGNATURE.as_slice())
        || holds_at(bytes, 0, RIFF_SIGNATURE.as_slice())
        || holds_at(bytes, 0, TIFF_BIG_SIGNATURE.as_slice())
        || holds_at(bytes, 0, TIFF_LITTLE_SIGNATURE.as_slice())
        || holds_at(bytes, 0, DDS_SIGNATURE.as_slice())
        || holds_at(bytes, 0, BMP_SIGNATURE.as_slice())
        || holds_at(bytes, 0, ICO_SIGNATURE.as_slice())
        || holds_at(bytes, 0, HDR_SIGNATURE.as_slice())
        || holds_at(bytes, 0, FARBFELD_SIGNATURE.as_slice())
        || holds_at(bytes, 0, AVIF_SIGNATURE.as_slice())
        || holds_at(bytes, 0, AVIF_SHORT_SIGNATURE.as_slice())
        || holds_at(bytes, 0, EXR_SIGNATURE.as_slice())
        || holds_at(bytes, 0, QOI_SIGNATURE.as_slice())
        || (bytes.len() >= 2 && bytes[0] == 80 && 49 <= bytes[1] && bytes[1] <= 55);
    !other && check_tame(bytes)
}

/// Decodes the contents of a file with this name.
pub fn decode_picture(file_name: &str, bytes: &[u8]) -> (outcome: Result<Image, image::ImageError>)
    requires
        covers_file(file_name@, bytes@),
    ensures
        picture_of(outcome) == file_picture(file_name@, bytes@),
        outcome matches Ok(image) ==> image@.wf(),
{
    decode_file(file_name, bytes)
}

} // verus!
