//! Images in several variants.
use vstd::prelude::*;
use vstd::utf8::encode_utf8;

use crate::bytes::{
    has_at, joined, lemma_has_at_nested, lemma_has_at_parts, lemma_has_at_within, lemma_joined_at,
    u32_at,
};
use crate::codec::{covers_file, decoded_png, is_png, png_decodes, png_stream, png_named};
use crate::cxsi::{
    blob_reads_back, content_views, covers_files, cxsi_blob, described_files, description,
    file_views, files_in, first_fault, header_flaw, lemma_variant_reads_back, loaded_view,
    loaded_views, loading, packing, passed_count, pictures_of, storable, stored_variants,
    unpacking, variant_bytes, variant_fault, variant_lines, variant_name, variant_parts,
    variant_views, variants_at, variants_of, Parsed, VariantView, CXSI_MAGIC,
};
use crate::driver::{deeds, Effect, Unpacked};
use crate::fault::{Fault, Flaw};
use crate::laws::bytes::{
    lemma_low_bytes, number, numbers_are_read_low_byte_first, parts_stand_byte_by_byte,
};
use crate::laws::container::{begins_with, lemma_begins};
use crate::laws::text::{is_numbered, lemma_numbered, lists_grow_at_the_end};
use crate::raster::Image;
use crate::text::listed;
use crate::tree::{toml_tree, Tree};

verus! {

/// Whether the variant `i` names a file whose picture was loaded and has pixels.
pub open spec fn is_whole(
    files: Seq<Option<String>>,
    loaded: Seq<Option<Result<Image, image::ImageError>>>,
    i: int,
) -> bool {
    &&& files[i] is Some
    &&& i < loaded.len()
    &&& loaded[i] matches Some(Ok(image)) && image.width > 0 && image.height > 0
}

/// The picture of the variant `i`.
pub open spec fn image_of(
    loaded: Seq<Option<Result<Image, image::ImageError>>>,
    i: int,
) -> Image {
    loaded[i]->0->Ok_0
}

/// The PNG that the picture of the variant `i` is stored as.
pub open spec fn png_of(loaded: Seq<Option<Result<Image, image::ImageError>>>, i: int) -> Seq<u8> {
    let image = image_of(loaded, i);
    png_stream(image.width, image.height, image.pixels@)
}

/// Where the variant `i` stands: behind the header of six bytes and the variants before it, each
/// with eight bytes in front of its PNG.
pub open spec fn place_of(loaded: Seq<Option<Result<Image, image::ImageError>>>, i: int) -> int
    decreases i,
{
    if i <= 0 {
        6
    } else {
        place_of(loaded, i - 1) + 8 + png_of(loaded, i - 1).len()
    }
}

/// Packing succeeds if every variant names a file whose picture was loaded and has pixels. Else it
/// fails by the first variant that does not: it names no file, the file could not be read, it does
/// not decode, or its picture has no pixels.
pub proof fn the_first_bad_variant_is_reported(
    files: Seq<Option<String>>,
    loaded: Seq<Option<Result<Image, image::ImageError>>>,
)
    requires
        files.len() <= usize::MAX,
    ensures
        match packing(file_views(files), loaded_views(loaded)) {
            Ok(_) => forall|i: int| 0 <= i < files.len() ==> #[trigger] is_whole(files, loaded, i),
            Err(fault) => exists|i: int| #[trigger] fails_by(files, loaded, i, fault),
        },
{
    lemma_first_fault(files, loaded, 0);
}

/// Whether the variant `i` is the first that cannot be packed, and why.
pub open spec fn fails_by(
    files: Seq<Option<String>>,
    loaded: Seq<Option<Result<Image, image::ImageError>>>,
    i: int,
    fault: Fault,
) -> bool {
    &&& 0 <= i < files.len()
    &&& forall|k: int| 0 <= k < i ==> #[trigger] is_whole(files, loaded, k)
    &&& !is_whole(files, loaded, i)
    &&& fault == if files[i] is None {
        Fault::Flawed(Flaw::NoVariantFile)
    } else if i >= loaded.len() || loaded[i] is None {
        Fault::Flawed(Flaw::Unreadable { index: i as usize })
    } else if loaded[i]->0 is Err {
        Fault::Decode(i)
    } else {
        Fault::Encode(i)
    }
}

proof fn lemma_fault(
    files: Seq<Option<String>>,
    loaded: Seq<Option<Result<Image, image::ImageError>>>,
    i: int,
)
    requires
        0 <= i < files.len(),
    ensures
        variant_fault(file_views(files), loaded_views(loaded), i) is None == is_whole(
            files,
            loaded,
            i,
        ),
{
    if i < loaded.len() {
        assert(loaded_views(loaded)[i] == loaded_view(loaded[i]));
    }
}

proof fn lemma_first_fault(
    files: Seq<Option<String>>,
    loaded: Seq<Option<Result<Image, image::ImageError>>>,
    from: int,
)
    requires
        0 <= from <= files.len(),
        forall|k: int| 0 <= k < from ==> #[trigger] is_whole(files, loaded, k),
    ensures
        match first_fault(file_views(files), loaded_views(loaded), from) {
            None => forall|i: int| 0 <= i < files.len() ==> #[trigger] is_whole(files, loaded, i),
            Some(fault) => exists|i: int| #[trigger] fails_by(files, loaded, i, fault),
        },
    decreases files.len() - from,
{
    if from < files.len() {
        lemma_fault(files, loaded, from);
        match variant_fault(file_views(files), loaded_views(loaded), from) {
            Some(fault) => {
                if from < loaded.len() {
                    assert(loaded_views(loaded)[from] == loaded_view(loaded[from]));
                }
                assert(fails_by(files, loaded, from, fault));
            },
            None => {
                lemma_first_fault(files, loaded, from + 1);
            },
        }
    }
}

/// A packed blob is its magic, the number of variants, and each variant in the order of its files:
/// its width and its height, which are those of the picture wherever two bytes can say them and
/// else their low two bytes, the length of its PNG, and the PNG of the picture.
#[verifier::rlimit(60)]
pub proof fn variants_are_stored_with_their_dimensions(
    files: Seq<Option<String>>,
    loaded: Seq<Option<Result<Image, image::ImageError>>>,
    blob: Seq<u8>,
    i: int,
)
    requires
        packing(file_views(files), loaded_views(loaded)) == Ok::<Seq<u8>, Fault>(blob),
        files.len() < 0x1_0000,
        forall|k: int| 0 <= k < files.len() ==> (#[trigger] png_of(loaded, k)).len() < 0x1_0000_0000,
        0 <= i < files.len(),
    ensures
        ({
            let at = place_of(loaded, i);
            let image = image_of(loaded, i);
            let png = png_of(loaded, i);
            &&& begins_with(blob, seq![67u8, 88, 83, 73])
            &&& number(blob, 4, 2) == files.len()
            &&& blob.len() == place_of(loaded, files.len() as int)
            &&& number(blob, at, 2) == image.width % 0x1_0000
            &&& number(blob, at + 2, 2) == image.height % 0x1_0000
            &&& image.width < 0x1_0000 ==> number(blob, at, 2) == image.width
            &&& image.height < 0x1_0000 ==> number(blob, at + 2, 2) == image.height
            &&& number(blob, at + 4, 4) == png.len()
            &&& forall|k: int| 0 <= k < png.len() ==> blob[at + 8 + k] == #[trigger] png[k]
        }),
{
    let variants = variants_of(pictures_of(loaded_views(loaded), files.len()));
    lemma_packed(files, loaded, blob);
    lemma_stands(loaded, variants, i);
    let variant = variants[i];
    assert(variant.png == png_of(loaded, i));
    lemma_variant_numbers(blob, place_of(loaded, i), variant);
}

/// The variants of a blob stand one after the other.
proof fn lemma_stands(
    loaded: Seq<Option<Result<Image, image::ImageError>>>,
    variants: Seq<VariantView>,
    i: int,
)
    requires
        storable(variants),
        0 <= i < variants.len(),
        forall|k: int| 0 <= k < variants.len() ==> (#[trigger] variants[k]).png == png_of(loaded, k),
    ensures
        begins_with(cxsi_blob(variants), seq![67u8, 88, 83, 73]),
        number(cxsi_blob(variants), 4, 2) == variants.len(),
        cxsi_blob(variants).len() == place_of(loaded, variants.len() as int),
        has_at(cxsi_blob(variants), place_of(loaded, i), variant_bytes(variants[i])),
        variants[i].png.len() <= u32::MAX,
{
    let n = variants.len() as int;
    lemma_place(loaded, variants, i);
    lemma_place(loaded, variants, n);
    assert(variant_parts(variants).take(n) =~= variant_parts(variants));
    lemma_blob(variants, i);
}

/// A packed blob holds the variants of its pictures.
proof fn lemma_packed(
    files: Seq<Option<String>>,
    loaded: Seq<Option<Result<Image, image::ImageError>>>,
    blob: Seq<u8>,
)
    requires
        packing(file_views(files), loaded_views(loaded)) == Ok::<Seq<u8>, Fault>(blob),
        files.len() < 0x1_0000,
        forall|k: int| 0 <= k < files.len() ==> (#[trigger] png_of(loaded, k)).len() < 0x1_0000_0000,
    ensures
        ({
            let variants = variants_of(pictures_of(loaded_views(loaded), files.len()));
            &&& blob == cxsi_blob(variants)
            &&& storable(variants)
            &&& variants.len() == files.len()
            &&& forall|k: int|
                0 <= k < files.len() ==> {
                    let variant = #[trigger] variants[k];
                    &&& variant.png == png_of(loaded, k)
                    &&& variant.width == image_of(loaded, k).width % 0x1_0000
                    &&& variant.height == image_of(loaded, k).height % 0x1_0000
                }
        }),
{
    let variants = variants_of(pictures_of(loaded_views(loaded), files.len()));
    lemma_first_fault(files, loaded, 0);
    assert(file_views(files).len() == files.len());
    assert forall|k: int| 0 <= k < files.len() implies {
        let variant = #[trigger] variants[k];
        &&& variant.png == png_of(loaded, k)
        &&& variant.width == image_of(loaded, k).width % 0x1_0000
        &&& variant.height == image_of(loaded, k).height % 0x1_0000
    } by {
        assert(is_whole(files, loaded, k));
        assert(loaded_views(loaded)[k] == loaded_view(loaded[k]));
        lemma_low_bytes(image_of(loaded, k).width);
        lemma_low_bytes(image_of(loaded, k).height);
    }
    assert forall|k: int| 0 <= k < variants.len() implies (#[trigger] variants[k]).png.len()
        <= u32::MAX by {
        assert(png_of(loaded, k).len() < 0x1_0000_0000);
    }
}

/// A variant that stands somewhere is read from its bytes.
proof fn lemma_variant_numbers(data: Seq<u8>, at: int, variant: VariantView)
    requires
        has_at(data, at, variant_bytes(variant)),
        variant.png.len() <= u32::MAX,
    ensures
        number(data, at, 2) == variant.width,
        number(data, at + 2, 2) == variant.height,
        number(data, at + 4, 4) == variant.png.len(),
        forall|k: int| 0 <= k < variant.png.len() ==> data[at + 8 + k] == #[trigger] variant.png[k],
{
    lemma_variant_reads_back(data, at, variant);
    numbers_are_read_low_byte_first(data, at);
    numbers_are_read_low_byte_first(data, at + 2);
    numbers_are_read_low_byte_first(data, at + 4);
    parts_stand_byte_by_byte(data, at + 8, variant.png);
}

proof fn lemma_place(
    loaded: Seq<Option<Result<Image, image::ImageError>>>,
    variants: Seq<VariantView>,
    i: int,
)
    requires
        0 <= i <= variants.len(),
        forall|k: int| 0 <= k < variants.len() ==> (#[trigger] variants[k]).png == png_of(loaded, k),
    ensures
        6 + joined(variant_parts(variants).take(i)).len() == place_of(loaded, i),
    decreases i,
{
    let parts = variant_parts(variants);
    if i > 0 {
        lemma_place(loaded, variants, i - 1);
        lemma_joined_at(parts, i - 1);
        assert(parts[i - 1] == variant_bytes(variants[i - 1]));
        assert(variants[i - 1].png == png_of(loaded, i - 1));
    } else {
        assert(parts.take(0) =~= Seq::<Seq<u8>>::empty());
    }
}

/// The parts of a blob stand in a row.
#[verifier::rlimit(60)]
proof fn lemma_blob(variants: Seq<VariantView>, i: int)
    requires
        variants.len() <= u16::MAX,
        0 <= i < variants.len(),
    ensures
        begins_with(cxsi_blob(variants), seq![67u8, 88, 83, 73]),
        number(cxsi_blob(variants), 4, 2) == variants.len(),
        cxsi_blob(variants).len() == 6 + joined(variant_parts(variants)).len(),
        has_at(
            cxsi_blob(variants),
            6 + joined(variant_parts(variants).take(i)).len() as int,
            variant_bytes(variants[i]),
        ),
{
    let blob = cxsi_blob(variants);
    let parts = variant_parts(variants);
    let head = CXSI_MAGIC@ + crate::bytes::le16(variants.len() as u16);
    assert(CXSI_MAGIC@ =~= seq![67u8, 88, 83, 73]);
    assert(head.len() == 6);
    lemma_has_at_within(Seq::empty(), head, joined(parts));
    assert(Seq::<u8>::empty() + head + joined(parts) =~= blob);
    lemma_has_at_parts(blob, 0, CXSI_MAGIC@, crate::bytes::le16(variants.len() as u16));
    lemma_begins(blob, CXSI_MAGIC@);
    crate::bytes::lemma_u16_at(blob, 4, variants.len() as u16);
    numbers_are_read_low_byte_first(blob, 4);
    lemma_has_at_within(head, joined(parts), Seq::empty());
    assert(head + joined(parts) + Seq::<u8>::empty() =~= blob);
    lemma_joined_at(parts, i);
    lemma_has_at_nested(
        blob,
        6,
        joined(parts),
        joined(parts.take(i)).len() as int,
        parts[i],
    );
}

/// Whether a blob was taken apart so.
pub open spec fn is_parsed(data: Seq<u8>, outcome: Result<Parsed, Flaw>) -> bool {
    match header_flaw(data) {
        Some(flaw) => outcome == Err::<Parsed, Flaw>(flaw),
        None => outcome matches Ok(parsed) && variant_views(parsed.variants@) == stored_variants(
            data,
        ).0 && parsed.flaw == stored_variants(data).1,
    }
}

/// Taking a packed blob apart, whatever follows it, gives as many variants as there are files, each
/// with the dimensions of its picture wherever two bytes can say them, and with its PNG.
pub proof fn packed_variants_read_back(
    files: Seq<Option<String>>,
    loaded: Seq<Option<Result<Image, image::ImageError>>>,
    blob: Seq<u8>,
    rest: Seq<u8>,
    outcome: Result<Parsed, Flaw>,
)
    requires
        packing(file_views(files), loaded_views(loaded)) == Ok::<Seq<u8>, Fault>(blob),
        files.len() < 0x1_0000,
        forall|k: int| 0 <= k < files.len() ==> (#[trigger] png_of(loaded, k)).len() < 0x1_0000_0000,
        is_parsed(blob + rest, outcome),
    ensures
        match outcome {
            Ok(parsed) => {
                &&& parsed.flaw is None
                &&& parsed.variants@.len() == files.len()
                &&& forall|i: int|
                    0 <= i < files.len() ==> {
                        let variant = #[trigger] parsed.variants@[i];
                        let image = image_of(loaded, i);
                        &&& image.width < 0x1_0000 ==> variant.width == image.width
                        &&& image.height < 0x1_0000 ==> variant.height == image.height
                        &&& variant.png@ == png_of(loaded, i)
                    }
            },
            Err(_) => false,
        },
{
    let variants = variants_of(pictures_of(loaded_views(loaded), files.len()));
    lemma_packed(files, loaded, blob);
    what_follows_is_not_read(variants, rest);
    let parsed = outcome->Ok_0;
    let views = variant_views(parsed.variants@);
    assert(views.len() == parsed.variants@.len());
    assert forall|i: int| 0 <= i < files.len() implies {
        let variant = #[trigger] parsed.variants@[i];
        let image = image_of(loaded, i);
        &&& image.width < 0x1_0000 ==> variant.width == image.width
        &&& image.height < 0x1_0000 ==> variant.height == image.height
        &&& variant.png@ == png_of(loaded, i)
    } by {
        assert(views[i] == parsed.variants@[i]@);
        assert(views[i] == variants[i]);
    }
}

/// Reading variants that stand in a row, up to a variant that is cut short or to the end.
#[verifier::rlimit(60)]
proof fn lemma_read(
    data: Seq<u8>,
    variants: Seq<VariantView>,
    at: int,
    done: int,
    whole: int,
    count: nat,
)
    requires
        0 <= done <= whole <= variants.len(),
        count == variants.len() - done,
        0 <= at,
        forall|k: int|
            0 <= k < variants.len() ==> (#[trigger] variants[k]).png.len() <= u32::MAX,
        forall|k: int|
            done <= k < whole ==> has_at(
                data,
                at + span(variants, done, k),
                #[trigger] variant_bytes(variants[k]),
            ),
        whole < variants.len() ==> {
            let next = at + span(variants, done, whole);
            &&& data.len() < next + 8 + variants[whole].png.len()
            &&& next + 8 <= data.len() ==> u32_at(data, next + 4) == variants[whole].png.len()
        },
    ensures
        variants_at(data, at, count).0 == variants.subrange(done, whole),
        variants_at(data, at, count).1 == (if whole == variants.len() {
            None
        } else if data.len() < at + span(variants, done, whole) + 8 {
            Some(Flaw::VariantsCutShort)
        } else {
            Some(Flaw::PngCutShort)
        }),
    decreases whole - done,
{
    if done == whole {
        assert(span(variants, done, whole) == 0);
        assert(variants.subrange(done, whole) =~= Seq::<VariantView>::empty());
        if whole < variants.len() {
            assert(variants[whole].png.len() <= u32::MAX);
        }
    } else {
        let variant = variants[done];
        assert(span(variants, done, done) == 0);
        assert(has_at(data, at + span(variants, done, done), variant_bytes(variants[done])));
        lemma_variant_reads_back(data, at, variant);
        let next = at + 8 + variant.png.len();
        assert forall|k: int| done + 1 <= k < whole implies has_at(
            data,
            next + span(variants, done + 1, k),
            #[trigger] variant_bytes(variants[k]),
        ) by {
            lemma_span(variants, done, k);
        }
        lemma_span(variants, done, whole);
        lemma_read(data, variants, next, done + 1, whole, (count - 1) as nat);
        assert(variants.subrange(done, whole) =~= seq![variant] + variants.subrange(
            done + 1,
            whole,
        ));
    }
}

/// The bytes of the variants from `from` up to `to`.
pub open spec fn span(variants: Seq<VariantView>, from: int, to: int) -> int
    decreases to - from,
{
    if from >= to {
        0
    } else {
        span(variants, from, to - 1) + 8 + variants[to - 1].png.len()
    }
}

proof fn lemma_span(variants: Seq<VariantView>, from: int, to: int)
    requires
        from < to,
    ensures
        span(variants, from, to) == 8 + variants[from].png.len() + span(variants, from + 1, to),
    decreases to - from,
{
    if from + 1 < to {
        lemma_span(variants, from, to - 1);
    } else {
        assert(span(variants, from, from) == 0);
        assert(span(variants, from + 1, to) == 0);
    }
}

proof fn lemma_span_of_parts(variants: Seq<VariantView>, i: int)
    requires
        0 <= i <= variants.len(),
    ensures
        joined(variant_parts(variants).take(i)).len() == span(variants, 0, i),
    decreases i,
{
    let parts = variant_parts(variants);
    if i > 0 {
        lemma_span_of_parts(variants, i - 1);
        lemma_joined_at(parts, i - 1);
        assert(parts[i - 1] == variant_bytes(variants[i - 1]));
    } else {
        assert(parts.take(0) =~= Seq::<Seq<u8>>::empty());
    }
}

#[verifier::rlimit(60)]
proof fn lemma_header(variants: Seq<VariantView>, data: Seq<u8>, length: int)
    requires
        storable(variants),
        6 <= length <= cxsi_blob(variants).len(),
        length <= data.len(),
        forall|k: int| 0 <= k < length ==> data[k] == #[trigger] cxsi_blob(variants)[k],
    ensures
        header_flaw(data) is None,
        stored_variants(data) == variants_at(data, 6, variants.len()),
{
    let blob = cxsi_blob(variants);
    blob_reads_back(variants);
    parts_stand_byte_by_byte(blob, 0, CXSI_MAGIC@);
    parts_stand_byte_by_byte(data, 0, CXSI_MAGIC@);
    assert forall|i: int| 0 <= i < 4 implies data[0 + i] == #[trigger] CXSI_MAGIC@[i] by {
        assert(blob[0 + i] == CXSI_MAGIC@[i]);
        assert(data[i] == blob[i]);
    }
    let head = CXSI_MAGIC@ + crate::bytes::le16(variants.len() as u16);
    assert(blob[4] == head[4] && blob[5] == head[5]);
    assert(data[4] == blob[4] && data[5] == blob[5]);
}

/// What follows a blob is not read.
pub proof fn what_follows_is_not_read(variants: Seq<VariantView>, rest: Seq<u8>)
    requires
        storable(variants),
    ensures
        header_flaw(cxsi_blob(variants) + rest) is None,
        stored_variants(cxsi_blob(variants) + rest) == (variants, None::<Flaw>),
{
    let blob = cxsi_blob(variants);
    let data = blob + rest;
    let n = variants.len() as int;
    assert(blob.len() >= 6);
    lemma_header(variants, data, blob.len() as int);
    assert forall|k: int| 0 <= k < n implies has_at(
        data,
        6 + span(variants, 0, k),
        #[trigger] variant_bytes(variants[k]),
    ) by {
        lemma_blob(variants, k);
        lemma_span_of_parts(variants, k);
        lemma_has_at_within(Seq::empty(), blob, rest);
        assert(Seq::<u8>::empty() + blob + rest =~= data);
        lemma_has_at_nested(data, 0, blob, 6 + span(variants, 0, k), variant_bytes(variants[k]));
    }
    lemma_read(data, variants, 6, 0, n, variants.len());
    assert(variants.subrange(0, n) =~= variants);
}

/// A blob that is cut off within a variant gives the variants before it, and says that they end
/// early, or that the PNG does where all its eight leading bytes are there.
#[verifier::rlimit(60)]
pub proof fn a_cut_blob_gives_what_is_whole(variants: Seq<VariantView>, whole: int, length: int)
    requires
        storable(variants),
        0 <= whole < variants.len(),
        6 + span(variants, 0, whole) <= length < 6 + span(variants, 0, whole + 1),
    ensures
        header_flaw(cxsi_blob(variants).take(length)) is None,
        stored_variants(cxsi_blob(variants).take(length)) == (
            variants.take(whole),
            if length < 6 + span(variants, 0, whole) + 8 {
                Some(Flaw::VariantsCutShort)
            } else {
                Some(Flaw::PngCutShort)
            },
        ),
{
    let blob = cxsi_blob(variants);
    let n = variants.len() as int;
    lemma_span_grows(variants, 0, whole);
    lemma_span_grows(variants, whole + 1, n);
    lemma_span_adds(variants, whole + 1, n);
    lemma_span_of_parts(variants, n);
    assert(variant_parts(variants).take(n) =~= variant_parts(variants));
    lemma_blob(variants, whole);
    let data = blob.take(length);
    lemma_header(variants, data, length);
    let next = 6 + span(variants, 0, whole);
    assert forall|k: int| 0 <= k < whole implies has_at(
        data,
        6 + span(variants, 0, k),
        #[trigger] variant_bytes(variants[k]),
    ) by {
        lemma_blob(variants, k);
        lemma_span_of_parts(variants, k);
        lemma_span_grows(variants, k + 1, whole);
        lemma_span_adds(variants, k + 1, whole);
        let at = 6 + span(variants, 0, k);
        assert(span(variants, 0, k + 1) == span(variants, 0, k) + 8 + variants[k].png.len());
        parts_stand_byte_by_byte(blob, at, variant_bytes(variants[k]));
        parts_stand_byte_by_byte(data, at, variant_bytes(variants[k]));
        assert forall|j: int| 0 <= j < variant_bytes(variants[k]).len() implies data[at + j]
            == #[trigger] variant_bytes(variants[k])[j] by {
            assert(blob[at + j] == variant_bytes(variants[k])[j]);
        }
    }
    if next + 8 <= data.len() {
        lemma_span_of_parts(variants, whole);
        lemma_variant_reads_back(blob, next, variants[whole]);
        assert(data[next + 4] == blob[next + 4] && data[next + 5] == blob[next + 5]);
        assert(data[next + 6] == blob[next + 6] && data[next + 7] == blob[next + 7]);
    }
    lemma_read(data, variants, 6, 0, whole, variants.len());
    assert(variants.subrange(0, whole) =~= variants.take(whole));
}

proof fn lemma_span_grows(variants: Seq<VariantView>, from: int, to: int)
    ensures
        0 <= span(variants, from, to),
    decreases to - from,
{
    if from < to {
        lemma_span_grows(variants, from, to - 1);
    }
}

proof fn lemma_span_adds(variants: Seq<VariantView>, middle: int, to: int)
    requires
        0 <= middle <= to,
    ensures
        span(variants, 0, to) == span(variants, 0, middle) + span(variants, middle, to),
    decreases to - middle,
{
    if middle < to {
        lemma_span_adds(variants, middle, to - 1);
    }
}

/// What is shorter than a header is refused, and so is what does not begin with the magic.
pub proof fn broken_headers_are_refused(data: Seq<u8>, outcome: Result<Parsed, Flaw>)
    requires
        is_parsed(data, outcome),
    ensures
        match outcome {
            Err(Flaw::TooShort) => data.len() < 6,
            Err(Flaw::BadMagic) => data.len() >= 6 && !begins_with(data, seq![67u8, 88, 83, 73]),
            Err(_) => false,
            Ok(_) => data.len() >= 6 && begins_with(data, seq![67u8, 88, 83, 73]),
        },
{
    assert(CXSI_MAGIC@ =~= seq![67u8, 88, 83, 73]);
    lemma_begins(data, CXSI_MAGIC@);
}

/// The first `count` variants, as a description lists them.
pub open spec fn listing(count: int) -> Seq<char>
    decreases count,
{
    if count <= 0 {
        Seq::empty()
    } else if count == 1 {
        "{ file = \""@ + variant_name(0) + "\" }"@
    } else {
        listing(count - 1) + ",\n  "@ + ("{ file = \""@ + variant_name(count - 1) + "\" }"@)
    }
}

/// The file of a variant is named by its number, of three digits at least.
pub proof fn variant_files_are_numbered(index: nat)
    ensures
        is_numbered(variant_name(index as int), "variant_"@, index as int, 3, ".png"@),
{
    lemma_numbered("variant_"@, index, 3, ".png"@);
}

/// The description names the files in order, one a line.
pub proof fn descriptions_name_the_files(count: int)
    requires
        0 <= count,
    ensures
        description(count) == "variants = [\n  "@ + listing(count) + "\n]\n"@,
{
    lemma_listing(count);
}

proof fn lemma_listing(count: int)
    requires
        0 <= count,
    ensures
        listed(variant_lines(count), ",\n  "@) == listing(count),
    decreases count,
{
    let lines = variant_lines(count);
    if count > 0 {
        lemma_listing(count - 1);
        let fewer = variant_lines(count - 1);
        assert(lines =~= fewer.push(lines[count - 1]));
        lists_grow_at_the_end(fewer, lines[count - 1], ",\n  "@);
        if count == 1 {
            assert(lines =~= seq![lines[0]]);
        }
    } else {
        assert(lines =~= Seq::<Seq<char>>::empty());
    }
}

/// Whether an effect writes a file with a name and contents.
pub open spec fn writes(effect: Effect, name: Seq<char>, contents: Seq<u8>) -> bool {
    match effect {
        Effect::WriteFile { name: file, contents: bytes } => file@ == name && bytes@ == contents,
        Effect::CreateFolder => false,
    }
}

/// Unpacking creates the folder and writes the PNG of each variant under its number, up to the
/// first that does not decode; where all do and none is cut short, the description at the end.
#[verifier::rlimit(60)]
pub proof fn variants_are_written_in_order(
    data: Seq<u8>,
    variants: Seq<VariantView>,
    flaw: Option<Flaw>,
    passed: int,
    unpacked: Unpacked<()>,
)
    requires
        unpacked.says(unpacking(data)),
        header_flaw(data) is None,
        stored_variants(data) == (variants, flaw),
        0 <= passed <= variants.len(),
        forall|i: int|
            0 <= i < passed ==> is_png((#[trigger] variants[i]).png) && png_decodes(variants[i].png),
        passed < variants.len() ==> !(is_png(variants[passed].png) && png_decodes(
            variants[passed].png,
        )),
    ensures
        ({
            let effects = unpacked.effects@;
            let whole = passed == variants.len() && flaw is None;
            &&& effects.len() == 1 + passed + (if whole {
                1int
            } else {
                0
            })
            &&& effects[0] is CreateFolder
            &&& forall|i: int|
                0 <= i < passed ==> writes(
                    #[trigger] effects[1 + i],
                    variant_name(i),
                    variants[i].png,
                )
            &&& whole ==> writes(
                effects[1 + passed],
                "simage.entry"@,
                encode_utf8("variants = [\n  "@ + listing(passed) + "\n]\n"@),
            )
            &&& match unpacked.outcome {
                Ok(_) => whole,
                Err(error) => error.fault() == if passed < variants.len() {
                    Fault::Decode(passed)
                } else {
                    Fault::Flawed(flaw->0)
                },
            }
        }),
{
    lemma_passed(variants, 0, passed);
    descriptions_name_the_files(passed);
    let effects = unpacked.effects@;
    let all = deeds(effects);
    assert(all.len() == effects.len());
    assert(all[0] == effects[0]@);
    assert forall|i: int| 0 <= i < passed implies writes(
        #[trigger] effects[1 + i],
        variant_name(i),
        variants[i].png,
    ) by {
        assert(all[1 + i] == effects[1 + i]@);
    }
    if passed == variants.len() && flaw is None {
        assert(all[1 + passed] == effects[1 + passed]@);
    }
}

proof fn lemma_passed(variants: Seq<VariantView>, from: int, passed: int)
    requires
        0 <= from <= passed <= variants.len(),
        forall|i: int|
            from <= i < passed ==> is_png((#[trigger] variants[i]).png) && png_decodes(
                variants[i].png,
            ),
        passed < variants.len() ==> !(is_png(variants[passed].png) && png_decodes(
            variants[passed].png,
        )),
    ensures
        passed_count(variants, from) == passed,
    decreases passed - from,
{
    if from < passed {
        lemma_passed(variants, from + 1, passed);
    }
}

/// Nothing is done with a blob whose header is broken.
pub proof fn broken_blobs_do_nothing(data: Seq<u8>, flaw: Flaw, unpacked: Unpacked<()>)
    requires
        unpacked.says(unpacking(data)),
        header_flaw(data) == Some(flaw),
    ensures
        unpacked.effects@.len() == 0,
        unpacked.outcome matches Err(error) && error.fault() == Fault::Flawed(flaw),
{
    assert(deeds(unpacked.effects@).len() == unpacked.effects@.len());
}

/// A description gives for each item of its list of variants the text under `file`; without the
/// list it is refused, and with more items than two bytes can count.
pub proof fn descriptions_are_read_in_order(tree: Tree)
    ensures
        match tree.named("variants"@) {
            Some(Tree::List(items)) => if items.len() < 0x1_0000 {
                &&& files_in(tree) is Ok
                &&& files_in(tree)->Ok_0.len() == items.len()
                &&& forall|i: int|
                    0 <= i < items.len() ==> #[trigger] files_in(tree)->Ok_0[i] == (match items[i].named(
                        "file"@,
                    ) {
                        Some(Tree::Text(file)) => Some(file),
                        _ => None,
                    })
            } else {
                files_in(tree) == Err::<Seq<Option<Seq<char>>>, Fault>(
                    Fault::Flawed(Flaw::TooManyVariants),
                )
            },
            _ => files_in(tree) == Err::<Seq<Option<Seq<char>>>, Fault>(
                Fault::Flawed(Flaw::NoVariants),
            ),
        },
{
}

/// A file is loaded as what the PNG decoder makes of its bytes if its name ends in `.png`, and as
/// nothing under another name; without bytes it is not loaded.
pub proof fn files_are_loaded_by_their_names(
    files: Seq<Option<String>>,
    contents: Seq<Option<Vec<u8>>>,
    i: int,
)
    requires
        0 <= i < files.len(),
        files[i] is Some,
    ensures
        loading(file_views(files), content_views(contents)).len() == files.len(),
        loading(file_views(files), content_views(contents))[i] == (if i >= contents.len()
            || contents[i] is None {
            None
        } else if png_named(files[i]->0@) {
            Some(decoded_png(contents[i]->0@))
        } else {
            Some(None)
        }),
{
    assert(file_views(files)[i] == Some(files[i]->0@));
    if i < contents.len() && contents[i] is Some {
        assert(content_views(contents)[i] == Some(contents[i]->0@));
    }
}

/// A description that is no TOML is refused; else its files are those that its document names.
pub proof fn descriptions_are_toml(text: Seq<char>)
    ensures
        described_files(text) == (match toml_tree(text) {
            Some(tree) => files_in(tree),
            None => Err::<Seq<Option<Seq<char>>>, Fault>(Fault::Toml),
        }),
{
}

/// Files can be packed here if each that names a file and was read is decoded here.
pub proof fn files_are_packed_here_if_all_are_covered(
    files: Seq<Option<String>>,
    contents: Seq<Option<Vec<u8>>>,
)
    ensures
        covers_files(file_views(files), content_views(contents)) == (forall|i: int|
            #![trigger files[i]]
            0 <= i < files.len() && i < contents.len() && files[i] is Some && contents[i] is Some
                ==> covers_file(files[i]->0@, contents[i]->0@)),
{
    let names = file_views(files);
    let bytes = content_views(contents);
    assert(names.len() == files.len() && bytes.len() == contents.len());
    if covers_files(names, bytes) {
        assert forall|i: int|
            #![trigger files[i]]
            0 <= i < files.len() && i < contents.len() && files[i] is Some && contents[i]
                is Some implies covers_file(files[i]->0@, contents[i]->0@) by {
            assert(names[i] == Some(files[i]->0@));
            assert(bytes[i] == Some(contents[i]->0@));
        }
    } else {
        let i = choose|i: int|
            0 <= i < names.len() && i < bytes.len() && names[i] is Some && bytes[i] is Some
                && !covers_file((#[trigger] names[i])->0, bytes[i]->0);
        assert(files[i] is Some && contents[i] is Some);
    }
}

} // verus!
