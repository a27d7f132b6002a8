//! Which files and bytes are decoded.
use vstd::prelude::*;

use crate::bytes::has_at;
use crate::codec::{
    be32_at, chunk_fits, chunks_fit, covers_bytes, covers_file, covers_name, decoded_png,
    file_picture, is_png, is_tame, last_dot, known_extension, other_signature, payload_passes,
    payload_picture, png_decodes, png_named,
};
use crate::laws::bytes::parts_stand_byte_by_byte;
use crate::laws::container::{begins_with, lemma_begins};
use crate::laws::text::{case_is_that_of_ascii_letters, same_letter};

verus! {

/// Whether two texts have the same letters, in whatever case.
pub open spec fn same_letters(a: Seq<char>, b: Seq<char>) -> bool {
    a.len() == b.len() && forall|i: int| 0 <= i < a.len() ==> same_letter(#[trigger] a[i], b[i])
}

/// Whether a character separates the parts of a path.
pub open spec fn separates(c: char) -> bool {
    c == '/' || c == '\\' || c == ':'
}

/// Whether an extension has no dot, is not empty and lies within one part of a path.
pub open spec fn is_extension(end: Seq<char>) -> bool {
    &&& end.len() > 0
    &&& forall|i: int| 0 <= i < end.len() ==> #[trigger] end[i] != '.' && !separates(end[i])
}

proof fn lemma_last_dot(front: Seq<char>, end: Seq<char>)
    requires
        forall|i: int| 0 <= i < end.len() ==> #[trigger] end[i] != '.',
    ensures
        last_dot((front + seq!['.']) + end) == front.len(),
    decreases end.len(),
{
    let name = (front + seq!['.']) + end;
    if end.len() > 0 {
        let fewer = end.drop_last();
        assert forall|i: int| 0 <= i < fewer.len() implies #[trigger] fewer[i] != '.' by {
            assert(fewer[i] == end[i]);
        }
        lemma_last_dot(front, fewer);
        assert(name.drop_last() =~= (front + seq!['.']) + fewer);
        assert(name.last() == end[end.len() - 1]);
    } else {
        assert(name.last() == '.');
    }
}

proof fn lemma_no_dot(name: Seq<char>)
    requires
        forall|i: int| 0 <= i < name.len() ==> #[trigger] name[i] != '.',
    ensures
        last_dot(name) < 0,
    decreases name.len(),
{
    if name.len() > 0 {
        let fewer = name.drop_last();
        assert(name[name.len() - 1] != '.');
        assert forall|i: int| 0 <= i < fewer.len() implies #[trigger] fewer[i] != '.' by {
            assert(fewer[i] == name[i]);
        }
        lemma_no_dot(fewer);
    }
}

/// A file whose name ends in `.png`, in whatever case, behind a character of the same part of the
/// path, is decoded as a PNG.
pub proof fn png_files_are_decoded(front: Seq<char>, end: Seq<char>, bytes: Seq<u8>)
    requires
        front.len() > 0,
        !separates(front.last()),
        same_letters(end, seq!['p', 'n', 'g']),
    ensures
        covers_name((front + seq!['.']) + end),
        covers_file((front + seq!['.']) + end, bytes) == is_tame(bytes),
        file_picture((front + seq!['.']) + end, bytes) == decoded_png(bytes),
{
    let name = (front + seq!['.']) + end;
    let png = seq!['p', 'n', 'g'];
    assert(same_letter(end[0], png[0]) && same_letter(end[1], png[1]) && same_letter(
        end[2],
        png[2],
    ));
    let n = name.len() as int;
    assert(name[n - 3] == end[0] && name[n - 2] == end[1] && name[n - 1] == end[2]);
    assert(name[n - 5] == front.last());
    assert(name[n - 4] == '.');
}

/// A file without an extension is covered: it is not decoded.
pub proof fn files_without_extension_are_not_decoded(name: Seq<char>, bytes: Seq<u8>)
    requires
        forall|i: int| 0 <= i < name.len() ==> #[trigger] name[i] != '.',
    ensures
        covers_file(name, bytes),
        file_picture(name, bytes) is None,
{
    lemma_no_dot(name);
    if png_named(name) {
        assert(name[name.len() - 4] == '.');
    }
}

/// Whether `image` has a format for the extension.
pub open spec fn is_of_a_format(end: Seq<char>) -> bool {
    ||| same_letters(end, "avif"@) || same_letters(end, "jpg"@) || same_letters(end, "jpeg"@)
    ||| same_letters(end, "png"@) || same_letters(end, "gif"@) || same_letters(end, "webp"@)
    ||| same_letters(end, "tif"@) || same_letters(end, "tiff"@) || same_letters(end, "tga"@)
    ||| same_letters(end, "dds"@) || same_letters(end, "bmp"@) || same_letters(end, "ico"@)
    ||| same_letters(end, "hdr"@) || same_letters(end, "exr"@) || same_letters(end, "pbm"@)
    ||| same_letters(end, "pam"@) || same_letters(end, "ppm"@) || same_letters(end, "pgm"@)
    ||| same_letters(end, "ff"@) || same_letters(end, "farbfeld"@) || same_letters(end, "qoi"@)
}

proof fn lemma_known(end: Seq<char>)
    ensures
        known_extension(end) == is_of_a_format(end),
{
    case_is_that_of_ascii_letters(end, "avif"@);
    case_is_that_of_ascii_letters(end, "jpg"@);
    case_is_that_of_ascii_letters(end, "jpeg"@);
    case_is_that_of_ascii_letters(end, "png"@);
    case_is_that_of_ascii_letters(end, "gif"@);
    case_is_that_of_ascii_letters(end, "webp"@);
    case_is_that_of_ascii_letters(end, "tif"@);
    case_is_that_of_ascii_letters(end, "tiff"@);
    case_is_that_of_ascii_letters(end, "tga"@);
    case_is_that_of_ascii_letters(end, "dds"@);
    case_is_that_of_ascii_letters(end, "bmp"@);
    case_is_that_of_ascii_letters(end, "ico"@);
    case_is_that_of_ascii_letters(end, "hdr"@);
    case_is_that_of_ascii_letters(end, "exr"@);
    case_is_that_of_ascii_letters(end, "pbm"@);
    case_is_that_of_ascii_letters(end, "pam"@);
    case_is_that_of_ascii_letters(end, "ppm"@);
    case_is_that_of_ascii_letters(end, "pgm"@);
    case_is_that_of_ascii_letters(end, "ff"@);
    case_is_that_of_ascii_letters(end, "farbfeld"@);
    case_is_that_of_ascii_letters(end, "qoi"@);
}

/// A file with an extension that is not that of a PNG is covered, and not decoded, if `image` has
/// no format for the extension; one with the extension of another format is not covered.
pub proof fn other_extensions_are_told_apart(front: Seq<char>, end: Seq<char>, bytes: Seq<u8>)
    requires
        is_extension(end),
        !same_letters(end, seq!['p', 'n', 'g']),
    ensures
        covers_file((front + seq!['.']) + end, bytes) == !is_of_a_format(end),
        file_picture((front + seq!['.']) + end, bytes) is None,
{
    let name = (front + seq!['.']) + end;
    let n = name.len() as int;
    let png = seq!['p', 'n', 'g'];
    lemma_last_dot(front, end);
    lemma_known(end);
    assert(name.skip(last_dot(name) + 1) =~= end);
    if png_named(name) {
        assert(name[n - 4] == '.');
        if end.len() >= 4 {
            assert(name[n - 4] == end[end.len() - 4]);
        }
        if end.len() < 3 {
            assert(name[n - 3] != '.' && name[n - 2] != '.' && name[n - 1] != '.');
            assert(name[front.len() as int] == '.');
        }
        assert(name[n - 3] == end[0] && name[n - 2] == end[1] && name[n - 1] == end[2]);
        assert forall|i: int| 0 <= i < end.len() implies same_letter(#[trigger] end[i], png[i]) by {
            assert(i == 0 || i == 1 || i == 2);
        }
    }
    if !is_of_a_format(end) {
        assert forall|i: int| 0 <= i < end.len() implies !crate::codec::is_separator(
            #[trigger] end[i],
        ) by {}
    }
}

/// Whether bytes begin like a format of `image` other than PNG.
pub open spec fn begins_like_another(bytes: Seq<u8>) -> bool {
    ||| begins_with(bytes, seq![0xffu8, 0xd8, 0xff])
    ||| begins_with(bytes, seq![0x47u8, 0x49, 0x46, 0x38, 0x39, 0x61])
    ||| begins_with(bytes, seq![0x47u8, 0x49, 0x46, 0x38, 0x37, 0x61])
    ||| begins_with(bytes, seq![0x52u8, 0x49, 0x46, 0x46])
    ||| begins_with(bytes, seq![0x4du8, 0x4d, 0, 0x2a])
    ||| begins_with(bytes, seq![0x49u8, 0x49, 0x2a, 0])
    ||| begins_with(bytes, seq![0x44u8, 0x44, 0x53, 0x20])
    ||| begins_with(bytes, seq![0x42u8, 0x4d])
    ||| begins_with(bytes, seq![0u8, 0, 1, 0])
    ||| begins_with(bytes, seq![0x23u8, 0x3f, 0x52, 0x41, 0x44, 0x49, 0x41, 0x4e, 0x43, 0x45])
    ||| begins_with(bytes, seq![0x66u8, 0x61, 0x72, 0x62, 0x66, 0x65, 0x6c, 0x64])
    ||| begins_with(bytes, seq![0u8, 0, 0, 0x20, 0x66, 0x74, 0x79, 0x70, 0x61, 0x76, 0x69, 0x66])
    ||| begins_with(bytes, seq![0u8, 0, 0, 0x1c, 0x66, 0x74, 0x79, 0x70, 0x61, 0x76, 0x69, 0x66])
    ||| begins_with(bytes, seq![0x76u8, 0x2f, 0x31, 0x01])
    ||| begins_with(bytes, seq![0x71u8, 0x6f, 0x69, 0x66])
    ||| bytes.len() >= 2 && bytes[0] == 0x50 && 0x31 <= bytes[1] && bytes[1] <= 0x37
}

/// Whether bytes begin like a PNG.
pub open spec fn begins_like_png(bytes: Seq<u8>) -> bool {
    begins_with(bytes, seq![0x89u8, 0x50, 0x4e, 0x47, 0x0d, 0x0a, 0x1a, 0x0a])
}

proof fn lemma_signature(bytes: Seq<u8>, constant: Seq<u8>, literal: Seq<u8>)
    requires
        constant =~= literal,
    ensures
        has_at(bytes, 0, constant) == begins_with(bytes, literal),
{
    lemma_begins(bytes, constant);
}

proof fn lemma_signatures(bytes: Seq<u8>)
    ensures
        other_signature(bytes) == begins_like_another(bytes),
        is_png(bytes) == begins_like_png(bytes),
{
    lemma_signature(bytes, crate::codec::JPEG_SIGNATURE@, seq![0xffu8, 0xd8, 0xff]);
    lemma_signature(
        bytes,
        crate::codec::GIF89_SIGNATURE@,
        seq![0x47u8, 0x49, 0x46, 0x38, 0x39, 0x61],
    );
    lemma_signature(
        bytes,
        crate::codec::GIF87_SIGNATURE@,
        seq![0x47u8, 0x49, 0x46, 0x38, 0x37, 0x61],
    );
    lemma_signature(bytes, crate::codec::RIFF_SIGNATURE@, seq![0x52u8, 0x49, 0x46, 0x46]);
    lemma_signature(bytes, crate::codec::TIFF_BIG_SIGNATURE@, seq![0x4du8, 0x4d, 0, 0x2a]);
    lemma_signature(bytes, crate::codec::TIFF_LITTLE_SIGNATURE@, seq![0x49u8, 0x49, 0x2a, 0]);
    lemma_signature(bytes, crate::codec::DDS_SIGNATURE@, seq![0x44u8, 0x44, 0x53, 0x20]);
    lemma_signature(bytes, crate::codec::BMP_SIGNATURE@, seq![0x42u8, 0x4d]);
    lemma_signature(bytes, crate::codec::ICO_SIGNATURE@, seq![0u8, 0, 1, 0]);
    lemma_signature(
        bytes,
        crate::codec::HDR_SIGNATURE@,
        seq![0x23u8, 0x3f, 0x52, 0x41, 0x44, 0x49, 0x41, 0x4e, 0x43, 0x45],
    );
    lemma_signature(
        bytes,
        crate::codec::FARBFELD_SIGNATURE@,
        seq![0x66u8, 0x61, 0x72, 0x62, 0x66, 0x65, 0x6c, 0x64],
    );
    lemma_signature(
        bytes,
        crate::codec::AVIF_SIGNATURE@,
        seq![0u8, 0, 0, 0x20, 0x66, 0x74, 0x79, 0x70, 0x61, 0x76, 0x69, 0x66],
    );
    lemma_signature(
        bytes,
        crate::codec::AVIF_SHORT_SIGNATURE@,
        seq![0u8, 0, 0, 0x1c, 0x66, 0x74, 0x79, 0x70, 0x61, 0x76, 0x69, 0x66],
    );
    lemma_signature(bytes, crate::codec::EXR_SIGNATURE@, seq![0x76u8, 0x2f, 0x31, 0x01]);
    lemma_signature(bytes, crate::codec::QOI_SIGNATURE@, seq![0x71u8, 0x6f, 0x69, 0x66]);
    lemma_signature(
        bytes,
        crate::codec::PNG_SIGNATURE@,
        seq![0x89u8, 0x50, 0x4e, 0x47, 0x0d, 0x0a, 0x1a, 0x0a],
    );
}

/// Bytes are decoded as a PNG if they begin like one, and as nothing if they begin like no format;
/// those that begin like another format, and PNGs that the decoder may panic on, are left out.
pub proof fn bytes_are_told_apart_by_how_they_begin(bytes: Seq<u8>)
    ensures
        covers_bytes(bytes) == (!begins_like_another(bytes) && is_tame(bytes)),
        !begins_like_png(bytes) ==> is_tame(bytes),
        payload_picture(bytes) == (if begins_like_png(bytes) {
            decoded_png(bytes)
        } else {
            None
        }),
        payload_passes(bytes) == (begins_like_png(bytes) && png_decodes(bytes)),
{
    lemma_signatures(bytes);
}

/// The number that four bytes write, the high byte first.
pub open spec fn high_first(bytes: Seq<u8>, at: int) -> int {
    ((bytes[at] * 256 + bytes[at + 1]) * 256 + bytes[at + 2]) * 256 + bytes[at + 3]
}

/// Where the chunk `k` of a PNG begins: behind the signature and the chunks before it, each with
/// twelve bytes around its data.
pub open spec fn chunk_place(bytes: Seq<u8>, k: nat) -> int
    decreases k,
{
    if k == 0 {
        8
    } else {
        let last = chunk_place(bytes, (k - 1) as nat);
        last + 12 + high_first(bytes, last)
    }
}

/// Whether a chunk has the type that four bytes name.
pub open spec fn is_of_type(bytes: Seq<u8>, at: int, a: u8, b: u8, c: u8, d: u8) -> bool {
    bytes[at + 4] == a && bytes[at + 5] == b && bytes[at + 6] == c && bytes[at + 7] == d
}

/// Whether the decoder takes a chunk: a palette for indexed colours has whole entries of three
/// bytes, 256 at most, and an animation does not count 2^32 - 1 frames.
pub open spec fn is_harmless(bytes: Seq<u8>, at: int) -> bool {
    &&& is_of_type(bytes, at, 0x50, 0x4c, 0x54, 0x45) && bytes[25] == 3 ==> high_first(bytes, at) % 3
        == 0 && high_first(bytes, at) <= 3 * 256
    &&& is_of_type(bytes, at, 0x61, 0x63, 0x54, 0x4c) && at + 12 <= bytes.len() ==> high_first(
        bytes,
        at + 8,
    ) != 0xffff_ffff
}

proof fn lemma_chunk(bytes: Seq<u8>, at: int)
    requires
        0 <= at,
        at + 8 <= bytes.len(),
    ensures
        chunk_fits(bytes, at) == is_harmless(bytes, at),
        be32_at(bytes, at) == high_first(bytes, at),
{
    let palette = crate::codec::PALETTE_CHUNK@;
    let animation = crate::codec::ANIMATION_CHUNK@;
    parts_stand_byte_by_byte(bytes, at + 4, palette);
    parts_stand_byte_by_byte(bytes, at + 4, animation);
    if has_at(bytes, at + 4, palette) {
        assert(bytes[at + 4 + 0] == palette[0] && bytes[at + 4 + 1] == palette[1]);
        assert(bytes[at + 4 + 2] == palette[2] && bytes[at + 4 + 3] == palette[3]);
    }
    if has_at(bytes, at + 4, animation) {
        assert(bytes[at + 4 + 0] == animation[0] && bytes[at + 4 + 1] == animation[1]);
        assert(bytes[at + 4 + 2] == animation[2] && bytes[at + 4 + 3] == animation[3]);
    }
    if is_of_type(bytes, at, 0x50, 0x4c, 0x54, 0x45) {
        assert forall|i: int| 0 <= i < 4 implies bytes[at + 4 + i] == #[trigger] palette[i] by {
            assert(i == 0 || i == 1 || i == 2 || i == 3);
        }
    }
    if is_of_type(bytes, at, 0x61, 0x63, 0x54, 0x4c) {
        assert forall|i: int| 0 <= i < 4 implies bytes[at + 4 + i] == #[trigger] animation[i] by {
            assert(i == 0 || i == 1 || i == 2 || i == 3);
        }
    }
}

#[verifier::rlimit(60)]
proof fn lemma_chunks(bytes: Seq<u8>, k: nat)
    requires
        bytes.len() >= 8,
    ensures
        8 <= chunk_place(bytes, k),
        chunk_place(bytes, k) <= bytes.len() ==> chunks_fit(bytes, chunk_place(bytes, k)) == (forall|
            j: nat,
        |
            j >= k && chunk_place(bytes, j) + 8 <= bytes.len() ==> is_harmless(
                bytes,
                #[trigger] chunk_place(bytes, j),
            )),
    decreases bytes.len() - chunk_place(bytes, k),
{
    lemma_chunk_place(bytes, k);
    let at = chunk_place(bytes, k);
    if at + 8 <= bytes.len() {
        lemma_chunk(bytes, at);
        lemma_chunk_place(bytes, k + 1);
        let next = chunk_place(bytes, k + 1);
        assert(next == at + 12 + high_first(bytes, at));
        if next <= bytes.len() {
            lemma_chunks(bytes, k + 1);
            if chunks_fit(bytes, at) {
                assert forall|j: nat|
                    j >= k && chunk_place(bytes, j) + 8 <= bytes.len() implies is_harmless(
                    bytes,
                    #[trigger] chunk_place(bytes, j),
                ) by {}
            }
        } else {
            assert forall|j: nat|
                j >= k && chunk_place(bytes, j) + 8 <= bytes.len() implies j == k by {
                if j > k {
                    lemma_chunk_order(bytes, k + 1, j);
                }
            }
        }
    } else {
        assert forall|j: nat| j >= k implies chunk_place(bytes, j) + 8 > bytes.len() by {
            lemma_chunk_order(bytes, k, j);
        }
    }
}

proof fn lemma_chunk_place(bytes: Seq<u8>, k: nat)
    ensures
        8 <= chunk_place(bytes, k),
    decreases k,
{
    if k > 0 {
        lemma_chunk_place(bytes, (k - 1) as nat);
    }
}

proof fn lemma_chunk_order(bytes: Seq<u8>, k: nat, j: nat)
    requires
        k <= j,
    ensures
        chunk_place(bytes, k) <= chunk_place(bytes, j),
    decreases j,
{
    if k < j {
        lemma_chunk_order(bytes, k, (j - 1) as nat);
    }
}

/// A PNG is left out if its first chunk is empty, if its picture would take more than 512 MiB with
/// four channels of its depth, or if one of its chunks is not harmless; and for nothing else.
pub proof fn pngs_are_left_out_only_for_cause(bytes: Seq<u8>)
    requires
        begins_like_png(bytes),
    ensures
        is_tame(bytes) == (bytes.len() <= 28 || {
            let depth = if bytes[24] == 16 {
                2int
            } else {
                1
            };
            &&& high_first(bytes, 8) > 0
            &&& 4 * (high_first(bytes, 16) * high_first(bytes, 20)) * depth <= 512 * 1024 * 1024
            &&& forall|k: nat|
                chunk_place(bytes, k) + 8 <= bytes.len() ==> is_harmless(
                    bytes,
                    #[trigger] chunk_place(bytes, k),
                )
        }),
{
    lemma_signatures(bytes);
    if bytes.len() > 28 {
        lemma_chunks(bytes, 0);
        assert(be32_at(bytes, 16) == high_first(bytes, 16));
        assert(be32_at(bytes, 20) == high_first(bytes, 20));
        assert(be32_at(bytes, 8) == high_first(bytes, 8));
        let area = high_first(bytes, 16) * high_first(bytes, 20);
        assert(be32_at(bytes, 16) * be32_at(bytes, 20) * 8 == 4 * area * 2 && be32_at(bytes, 16)
            * be32_at(bytes, 20) * 4 == 4 * area * 1) by (nonlinear_arith)
            requires
                be32_at(bytes, 16) == high_first(bytes, 16),
                be32_at(bytes, 20) == high_first(bytes, 20),
                area == high_first(bytes, 16) * high_first(bytes, 20),
        ;
    }
}

} // verus!
