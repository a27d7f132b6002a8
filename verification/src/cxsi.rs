//! CXSI: an image in several variants.
//!
//! A blob is the magic, the number of variants in two bytes, and for each variant its width and
//! height in two bytes each, the length of its PNG in four, and the PNG.
use vstd::prelude::*;
use vstd::string::*;
use vstd::utf8::encode_utf8;

use crate::bytes::{
    copy_range, has_at, holds_at, joined, le16, le32, lemma_has_at_nested, lemma_has_at_parts,
    lemma_has_at_within, lemma_joined_at, lemma_joined_push, lemma_u16_at, lemma_u32_at, push_bytes,
    push_u16, push_u32, read_u16, read_u32, u16_at, u32_at,
};
use crate::codec::{
    can_decode, can_decode_bytes, check_unlimited, covers_bytes, covers_file, decode_file, encode_png,
    file_picture, lemma_png_is_covered, payload_passes, picture_of, png_named, stored_faithfully,
    stream_of, DECODE_LIMIT,
};
use crate::driver::{deeds, lemma_deeds_push, AssetDriver, Deed, Effect, Unpacked, Unpacking};
use crate::fault::{packed_as, AssetError, Fault, Flaw};
use crate::raster::{Image, Raster};
use crate::text::{
    lemma_padded_digits, list_text, listed, padded, padded_text, text_bytes, texts,
};
use crate::tree::{read_toml, toml_tree, Node, Tree};

verus! {

/// What a blob begins with: "CXSI".
pub const CXSI_MAGIC: [u8; 4] = [67u8, 88, 83, 73];

/// The driver of images in several variants.
pub struct CxsiDriver;

impl AssetDriver for CxsiDriver {
    open spec fn magic_bytes(&self) -> Seq<u8> {
        CXSI_MAGIC@
    }

    open spec fn extension_text(&self) -> Seq<char> {
        ".cxsi"@
    }

    open spec fn entry_text(&self) -> Seq<char> {
        "simage.entry"@
    }

    fn magic(&self) -> &[u8; 4] {
        &CXSI_MAGIC
    }

    fn extension(&self) -> &str {
        ".cxsi"
    }

    fn entry_file(&self) -> &str {
        "simage.entry"
    }
}

/// One variant as it is stored.
pub struct Variant {
    pub width: u16,
    pub height: u16,
    pub png: Vec<u8>,
}

/// What a [`Variant`] says.
#[verifier::ext_equal]
pub struct VariantView {
    pub width: u16,
    pub height: u16,
    pub png: Seq<u8>,
}

impl View for Variant {
    type V = VariantView;

    open spec fn view(&self) -> VariantView {
        VariantView { width: self.width, height: self.height, png: self.png@ }
    }
}

/// What the variants say.
pub open spec fn variant_views(variants: Seq<Variant>) -> Seq<VariantView> {
    Seq::new(variants.len(), |i: int| variants[i]@)
}

/// A variant as bytes.
pub open spec fn variant_bytes(variant: VariantView) -> Seq<u8> {
    le16(variant.width) + le16(variant.height) + le32(variant.png.len() as u32) + variant.png
}

/// The bytes of each variant.
pub open spec fn variant_parts(variants: Seq<VariantView>) -> Seq<Seq<u8>> {
    Seq::new(variants.len(), |i: int| variant_bytes(variants[i]))
}

/// The blob of the variants.
pub open spec fn cxsi_blob(variants: Seq<VariantView>) -> Seq<u8> {
    CXSI_MAGIC@ + le16(variants.len() as u16) + joined(variant_parts(variants))
}

/// The variants stored from `at` on, as many as are there, and what cuts them short.
pub open spec fn variants_at(data: Seq<u8>, at: int, count: nat) -> (
    Seq<VariantView>,
    Option<Flaw>,
)
    decreases count,
{
    if count == 0 {
        (Seq::empty(), None)
    } else if at + 8 > data.len() {
        (Seq::empty(), Some(Flaw::VariantsCutShort))
    } else if at + 8 + u32_at(data, at + 4) > data.len() {
        (Seq::empty(), Some(Flaw::PngCutShort))
    } else {
        let size = u32_at(data, at + 4);
        let variant = VariantView {
            width: u16_at(data, at),
            height: u16_at(data, at + 2),
            png: data.subrange(at + 8, at + 8 + size),
        };
        let rest = variants_at(data, at + 8 + size, (count - 1) as nat);
        (seq![variant] + rest.0, rest.1)
    }
}

/// What is wrong with the header of a blob.
pub open spec fn header_flaw(data: Seq<u8>) -> Option<Flaw> {
    if data.len() < 6 {
        Some(Flaw::TooShort)
    } else if !has_at(data, 0, CXSI_MAGIC@) {
        Some(Flaw::BadMagic)
    } else {
        None
    }
}

/// The variants of a blob whose header is right.
pub open spec fn stored_variants(data: Seq<u8>) -> (Seq<VariantView>, Option<Flaw>) {
    variants_at(data, 6, u16_at(data, 4) as nat)
}

/// The name of the file of a variant.
pub open spec fn variant_name(index: int) -> Seq<char> {
    "variant_"@ + padded(index as nat, 3) + ".png"@
}

/// The files of the first `count` variants.
pub open spec fn variant_files_written(variants: Seq<VariantView>, count: int) -> Seq<Deed> {
    Seq::new(
        count as nat,
        |i: int| Deed::WriteFile { name: variant_name(i), contents: variants[i].png },
    )
}

/// The lines of a description that name the files of the variants.
pub open spec fn variant_lines(count: int) -> Seq<Seq<char>> {
    Seq::new(count as nat, |i: int| "{ file = \""@ + variant_name(i) + "\" }"@)
}

/// The description of that many variants.
pub open spec fn description(count: int) -> Seq<char> {
    "variants = [\n  "@ + listed(variant_lines(count), ",\n  "@) + "\n]\n"@
}

/// What exporting variants comes to where the first `passed` of them decode and the next one does
/// not; `flaw` is what cut them short.
pub open spec fn exporting(
    variants: Seq<VariantView>,
    flaw: Option<Flaw>,
    passed: int,
) -> Unpacking<()> {
    let written = seq![Deed::CreateFolder] + variant_files_written(variants, passed);
    if passed < variants.len() {
        Unpacking { deeds: written, outcome: Err(Fault::Decode(passed)) }
    } else {
        match flaw {
            Some(flaw) => Unpacking { deeds: written, outcome: Err(Fault::Flawed(flaw)) },
            None => Unpacking {
                deeds: written.push(
                    Deed::WriteFile {
                        name: "simage.entry"@,
                        contents: encode_utf8(description(passed)),
                    },
                ),
                outcome: Ok(()),
            },
        }
    }
}

/// What unpacking comes to.
pub open spec fn unpacking(data: Seq<u8>) -> Unpacking<()> {
    let (variants, flaw) = stored_variants(data);
    match header_flaw(data) {
        Some(flaw) => Unpacking { deeds: Seq::empty(), outcome: Err(Fault::Flawed(flaw)) },
        None => exporting(variants, flaw, passed_count(variants, 0)),
    }
}

/// The number of variants, from `from` on, up to the first that does not decode.
pub open spec fn passed_count(variants: Seq<VariantView>, from: int) -> int
    decreases variants.len() - from,
{
    if from < 0 || from >= variants.len() || !payload_passes(variants[from].png) {
        from
    } else {
        passed_count(variants, from + 1)
    }
}

/// The files that a description names, a variant without one having none.
pub open spec fn files_in(tree: Tree) -> Result<Seq<Option<Seq<char>>>, Fault> {
    match tree.named_list("variants"@) {
        None => Err(Fault::Flawed(Flaw::NoVariants)),
        Some(items) => if items.len() > 65535 {
            Err(Fault::Flawed(Flaw::TooManyVariants))
        } else {
            Ok(Seq::new(items.len(), |i: int| items[i].named_text("file"@)))
        },
    }
}

/// The files that a description names, read as TOML.
pub open spec fn described_files(text: Seq<char>) -> Result<Seq<Option<Seq<char>>>, Fault> {
    match toml_tree(text) {
        None => Err(Fault::Toml),
        Some(tree) => files_in(tree),
    }
}

/// The characters of the names.
pub open spec fn file_views(files: Seq<Option<String>>) -> Seq<Option<Seq<char>>> {
    Seq::new(
        files.len(),
        |i: int|
            match files[i] {
                Some(file) => Some(file@),
                None => None,
            },
    )
}

/// The bytes of the files.
pub open spec fn content_views(contents: Seq<Option<Vec<u8>>>) -> Seq<Option<Seq<u8>>> {
    Seq::new(
        contents.len(),
        |i: int|
            match contents[i] {
                Some(bytes) => Some(bytes@),
                None => None,
            },
    )
}

/// What became of a file: `None` for one that could not be read, `Some(None)` for one that does
/// not decode.
pub open spec fn loaded_view(loaded: Option<Result<Image, image::ImageError>>) -> Option<
    Option<Raster>,
> {
    match loaded {
        None => None,
        Some(outcome) => Some(picture_of(outcome)),
    }
}

/// What became of the files.
pub open spec fn loaded_views(loaded: Seq<Option<Result<Image, image::ImageError>>>) -> Seq<
    Option<Option<Raster>>,
> {
    Seq::new(loaded.len(), |i: int| loaded_view(loaded[i]))
}

/// What the contents of the files decode to.
pub open spec fn loading(
    files: Seq<Option<Seq<char>>>,
    contents: Seq<Option<Seq<u8>>>,
) -> Seq<Option<Option<Raster>>> {
    Seq::new(
        files.len(),
        |i: int|
            if files[i] is Some && i < contents.len() && contents[i] is Some {
                Some(file_picture(files[i]->0, contents[i]->0))
            } else {
                None
            },
    )
}

/// Whether every file that was read is decoded here.
pub open spec fn covers_files(
    files: Seq<Option<Seq<char>>>,
    contents: Seq<Option<Seq<u8>>>,
) -> bool {
    forall|i: int|
        0 <= i < files.len() && i < contents.len() && files[i] is Some && contents[i] is Some
            ==> covers_file((#[trigger] files[i])->0, contents[i]->0)
}

/// What is wrong with a variant.
pub open spec fn variant_fault(
    files: Seq<Option<Seq<char>>>,
    loaded: Seq<Option<Option<Raster>>>,
    i: int,
) -> Option<Fault> {
    if files[i] is None {
        Some(Fault::Flawed(Flaw::NoVariantFile))
    } else if i >= loaded.len() {
        Some(Fault::Flawed(Flaw::Unreadable { index: i as usize }))
    } else {
        match loaded[i] {
            None => Some(Fault::Flawed(Flaw::Unreadable { index: i as usize })),
            Some(None) => Some(Fault::Decode(i)),
            Some(Some(picture)) => if picture.width == 0 || picture.height == 0 {
                Some(Fault::Encode(i))
            } else {
                None
            },
        }
    }
}

/// What is wrong with the first wrong variant from `from` on.
pub open spec fn first_fault(
    files: Seq<Option<Seq<char>>>,
    loaded: Seq<Option<Option<Raster>>>,
    from: int,
) -> Option<Fault>
    decreases files.len() - from,
{
    if from < 0 || from >= files.len() {
        None
    } else {
        match variant_fault(files, loaded, from) {
            Some(fault) => Some(fault),
            None => first_fault(files, loaded, from + 1),
        }
    }
}

/// The variant that a picture is stored as.
pub open spec fn variant_of(picture: Raster) -> VariantView {
    VariantView {
        width: picture.width as u16,
        height: picture.height as u16,
        png: stream_of(picture),
    }
}

/// The variants that the pictures are stored as.
pub open spec fn variants_of(pictures: Seq<Raster>) -> Seq<VariantView> {
    Seq::new(pictures.len(), |i: int| variant_of(pictures[i]))
}

/// The first `count` of the loaded pictures.
pub open spec fn pictures_of(loaded: Seq<Option<Option<Raster>>>, count: nat) -> Seq<Raster> {
    Seq::new(count, |i: int| loaded[i]->0->0)
}

/// What packing comes to, the files having been loaded as these.
pub open spec fn packing(
    files: Seq<Option<Seq<char>>>,
    loaded: Seq<Option<Option<Raster>>>,
) -> Result<Seq<u8>, Fault> {
    match first_fault(files, loaded, 0) {
        Some(fault) => Err(fault),
        None => Ok(cxsi_blob(variants_of(pictures_of(loaded, files.len())))),
    }
}

/// Whether each of the first `count` pictures survives being stored.
pub open spec fn packed_faithfully(loaded: Seq<Option<Option<Raster>>>, count: nat) -> bool {
    forall|i: int|
        0 <= i < count ==> stored_faithfully(
            #[trigger] pictures_of(loaded, count)[i],
            stream_of(pictures_of(loaded, count)[i]),
        )
}

/// The fault of the first faulty variant is the first fault.
proof fn lemma_fault_stands(
    files: Seq<Option<Seq<char>>>,
    loaded: Seq<Option<Option<Raster>>>,
    from: int,
    at: int,
)
    requires
        0 <= from <= at < files.len(),
        variant_fault(files, loaded, at) is Some,
        forall|i: int| from <= i < at ==> (#[trigger] variant_fault(files, loaded, i)) is None,
    ensures
        first_fault(files, loaded, from) == variant_fault(files, loaded, at),
    decreases at - from,
{
    if from < at {
        assert(variant_fault(files, loaded, from) is None);
        lemma_fault_stands(files, loaded, from + 1, at);
    }
}

/// Without a faulty variant there is no first one.
proof fn lemma_no_fault(
    files: Seq<Option<Seq<char>>>,
    loaded: Seq<Option<Option<Raster>>>,
    from: int,
)
    requires
        0 <= from <= files.len(),
        forall|i: int|
            from <= i < files.len() ==> (#[trigger] variant_fault(files, loaded, i)) is None,
    ensures
        first_fault(files, loaded, from) is None,
    decreases files.len() - from,
{
    if from < files.len() {
        assert(variant_fault(files, loaded, from) is None);
        lemma_no_fault(files, loaded, from + 1);
    }
}

/// Whether each variant keeps to what its length field can say.
pub open spec fn storable(variants: Seq<VariantView>) -> bool {
    &&& variants.len() <= u16::MAX
    &&& forall|i: int|
        0 <= i < variants.len() ==> (#[trigger] variants[i]).png.len() <= u32::MAX
}

/// A stored variant reads back.
pub proof fn lemma_variant_reads_back(data: Seq<u8>, at: int, variant: VariantView)
    requires
        has_at(data, at, variant_bytes(variant)),
        variant.png.len() <= u32::MAX,
    ensures
        0 <= at,
        at + 8 + variant.png.len() <= data.len(),
        u16_at(data, at) == variant.width,
        u16_at(data, at + 2) == variant.height,
        u32_at(data, at + 4) == variant.png.len(),
        data.subrange(at + 8, at + 8 + variant.png.len()) == variant.png,
{
    let size = variant.png.len() as u32;
    let sides = le16(variant.width) + le16(variant.height);
    lemma_has_at_parts(data, at, sides + le32(size), variant.png);
    lemma_has_at_parts(data, at, sides, le32(size));
    lemma_has_at_parts(data, at, le16(variant.width), le16(variant.height));
    lemma_u16_at(data, at, variant.width);
    lemma_u16_at(data, at + 2, variant.height);
    lemma_u32_at(data, at + 4, size);
}

/// The rest of the variants of a blob read back.
proof fn lemma_rest_reads_back(data: Seq<u8>, variants: Seq<VariantView>, done: int)
    requires
        storable(variants),
        0 <= done <= variants.len(),
        has_at(data, 6, joined(variant_parts(variants))),
    ensures
        variants_at(
            data,
            6 + joined(variant_parts(variants).take(done)).len() as int,
            (variants.len() - done) as nat,
        ) == (variants.skip(done), None::<Flaw>),
    decreases variants.len() - done,
{
    let parts = variant_parts(variants);
    if done == variants.len() {
        assert(variants.skip(done) =~= Seq::<VariantView>::empty());
    } else {
        let before = joined(parts.take(done)).len() as int;
        let variant = variants[done];
        lemma_rest_reads_back(data, variants, done + 1);
        lemma_joined_at(parts, done);
        lemma_has_at_nested(data, 6, joined(parts), before, parts[done]);
        assert(parts[done] == variant_bytes(variant));
        lemma_variant_reads_back(data, 6 + before, variant);
        assert(joined(parts.take(done + 1)).len() == before + 8 + variant.png.len());
        assert(variants.skip(done) =~= seq![variant] + variants.skip(done + 1));
    }
}

/// Reading a blob gives back the variants that were put into it.
pub proof fn blob_reads_back(variants: Seq<VariantView>)
    requires
        storable(variants),
    ensures
        header_flaw(cxsi_blob(variants)) is None,
        stored_variants(cxsi_blob(variants)) == (variants, None::<Flaw>),
{
    let blob = cxsi_blob(variants);
    let parts = variant_parts(variants);
    let head = CXSI_MAGIC@ + le16(variants.len() as u16);
    lemma_has_at_within(head, joined(parts), Seq::empty());
    assert(head + joined(parts) + Seq::<u8>::empty() =~= blob);
    lemma_rest_reads_back(blob, variants, 0);
    assert(parts.take(0) =~= Seq::<Seq<u8>>::empty());
    assert(variants.skip(0) =~= variants);
    lemma_has_at_within(Seq::empty(), head, joined(parts));
    assert(Seq::<u8>::empty() + head + joined(parts) =~= blob);
    lemma_has_at_parts(blob, 0, CXSI_MAGIC@, le16(variants.len() as u16));
    lemma_u16_at(blob, 4, variants.len() as u16);
}

/// All the variants of a packed blob decode.
proof fn lemma_all_pass(pictures: Seq<Raster>, from: int)
    requires
        0 <= from <= pictures.len(),
        forall|i: int|
            0 <= i < pictures.len() ==> {
                &&& stored_faithfully(#[trigger] pictures[i], stream_of(pictures[i]))
                &&& pictures[i].size() <= DECODE_LIMIT
            },
    ensures
        passed_count(variants_of(pictures), from) == pictures.len(),
    decreases pictures.len() - from,
{
    if from < pictures.len() {
        assert(stored_faithfully(pictures[from], stream_of(pictures[from])));
        lemma_all_pass(pictures, from + 1);
    }
}

/// Unpacking a packed blob succeeds and writes each picture as the PNG stream that it was packed
/// as, in the order of the variants, and a description of as many files.
pub proof fn unpacking_undoes_packing(pictures: Seq<Raster>)
    requires
        pictures.len() <= u16::MAX,
        forall|i: int|
            0 <= i < pictures.len() ==> {
                &&& stored_faithfully(#[trigger] pictures[i], stream_of(pictures[i]))
                &&& pictures[i].size() <= DECODE_LIMIT
            },
    ensures
        unpackable(cxsi_blob(variants_of(pictures))),
        unpacking(cxsi_blob(variants_of(pictures))) == (Unpacking {
            deeds: (seq![Deed::CreateFolder] + Seq::new(
                pictures.len(),
                |i: int|
                    Deed::WriteFile { name: variant_name(i), contents: stream_of(pictures[i]) },
            )).push(
                Deed::WriteFile {
                    name: "simage.entry"@,
                    contents: encode_utf8(description(pictures.len() as int)),
                },
            ),
            outcome: Ok::<(), Fault>(()),
        }),
{
    let variants = variants_of(pictures);
    assert forall|i: int| 0 <= i < variants.len() implies (#[trigger] variants[i]).png.len()
        <= u32::MAX by {
        assert(stored_faithfully(pictures[i], stream_of(pictures[i])));
    }
    blob_reads_back(variants);
    lemma_all_pass(pictures, 0);
    assert forall|i: int| 0 <= i < variants.len() implies covers_bytes(
        (#[trigger] variants[i]).png,
    ) by {
        assert(stored_faithfully(pictures[i], stream_of(pictures[i])));
        lemma_png_is_covered(variants[i].png);
    }
    assert(variant_files_written(variants, pictures.len() as int) =~= Seq::new(
        pictures.len(),
        |i: int| Deed::WriteFile { name: variant_name(i), contents: stream_of(pictures[i]) },
    ));
}

/// The files of the variants are named as PNGs.
proof fn lemma_variant_is_png(index: int)
    ensures
        png_named(variant_name(index)),
{
    reveal_strlit("variant_");
    reveal_strlit(".png");
    lemma_padded_digits(index as nat, 3);
    let name = variant_name(index);
    let digits = padded(index as nat, 3);
    let n = name.len() as int;
    assert(name[n - 5] == digits.last());
}

/// The pictures of a packed blob have pixels.
pub proof fn packed_pictures_have_pixels(
    files: Seq<Option<Seq<char>>>,
    loaded: Seq<Option<Option<Raster>>>,
    i: int,
)
    requires
        packing(files, loaded) is Ok,
        0 <= i < files.len(),
    ensures
        pictures_of(loaded, files.len())[i].width > 0,
        pictures_of(loaded, files.len())[i].height > 0,
{
    if variant_fault(files, loaded, i) is Some {
        lemma_some_fault(files, loaded, 0, i);
    }
}

/// The contents of the files that unpacking writes, in the order of the description.
pub open spec fn unpacked_contents(pictures: Seq<Raster>) -> Seq<Option<Seq<u8>>> {
    Seq::new(pictures.len(), |i: int| Some(stream_of(pictures[i])))
}

/// The names of the files that unpacking writes, in the order of the description.
pub open spec fn unpacked_files(count: nat) -> Seq<Option<Seq<char>>> {
    Seq::new(count, |i: int| Some(variant_name(i)))
}

/// Packing what was unpacked gives the same blob: if packing the files that unpacking names and
/// writes, in the order of the description, succeeds, it comes to the blob that they were unpacked
/// from. It succeeds where every picture keeps to the limit of the decoder.
pub proof fn packing_undoes_unpacking(pictures: Seq<Raster>)
    requires
        forall|i: int|
            0 <= i < pictures.len() ==> {
                &&& stored_faithfully(#[trigger] pictures[i], stream_of(pictures[i]))
                &&& pictures[i].width > 0 && pictures[i].height > 0
            },
    ensures
        ({
            let files = unpacked_files(pictures.len());
            let contents = unpacked_contents(pictures);
            let within = forall|i: int|
                0 <= i < pictures.len() ==> (#[trigger] pictures[i]).size() <= DECODE_LIMIT;
            let packed = packing(files, loading(files, contents));
            &&& within ==> covers_files(files, contents)
            &&& packed is Ok == within
            &&& packed is Ok ==> packed == Ok::<Seq<u8>, Fault>(cxsi_blob(variants_of(pictures)))
        }),
{
    let files = unpacked_files(pictures.len());
    let contents = unpacked_contents(pictures);
    let loaded = loading(files, contents);
    let within = forall|i: int|
        0 <= i < pictures.len() ==> (#[trigger] pictures[i]).size() <= DECODE_LIMIT;
    if within {
        assert forall|i: int|
            0 <= i < files.len() && i < contents.len() && files[i] is Some && contents[i]
                is Some implies covers_file((#[trigger] files[i])->0, contents[i]->0) by {
            lemma_variant_is_png(i);
            assert(pictures[i].size() <= DECODE_LIMIT);
        }
        assert forall|i: int| 0 <= i < files.len() implies (#[trigger] variant_fault(
            files,
            loaded,
            i,
        )) is None && loaded[i] == Some(Some(pictures[i])) by {
            lemma_variant_is_png(i);
            assert(pictures[i].size() <= DECODE_LIMIT);
        }
        lemma_no_fault(files, loaded, 0);
        assert(pictures_of(loaded, files.len()) =~= pictures) by {
            assert forall|i: int| 0 <= i < files.len() implies pictures_of(loaded, files.len())[i]
                == pictures[i] by {
                assert(variant_fault(files, loaded, i) is None);
            }
        }
    } else {
        let i = choose|i: int|
            0 <= i < pictures.len() && (#[trigger] pictures[i]).size() > DECODE_LIMIT;
        lemma_variant_is_png(i);
        assert(stored_faithfully(pictures[i], stream_of(pictures[i])));
        assert(variant_fault(files, loaded, i) is Some);
        lemma_some_fault(files, loaded, 0, i);
    }
}

/// With a faulty variant there is a first one.
proof fn lemma_some_fault(
    files: Seq<Option<Seq<char>>>,
    loaded: Seq<Option<Option<Raster>>>,
    from: int,
    at: int,
)
    requires
        0 <= from <= at < files.len(),
        variant_fault(files, loaded, at) is Some,
    ensures
        first_fault(files, loaded, from) is Some,
    decreases at - from,
{
    if from < at {
        lemma_some_fault(files, loaded, from + 1, at);
    }
}

/// Whether every variant of a blob is decoded here.
pub open spec fn unpackable(data: Seq<u8>) -> bool {
    header_flaw(data) is None ==> covers_variants(stored_variants(data).0)
}

/// Whether every variant is decoded here.
pub open spec fn covers_variants(variants: Seq<VariantView>) -> bool {
    forall|i: int| 0 <= i < variants.len() ==> covers_bytes((#[trigger] variants[i]).png)
}

/// The variants of a blob, and what cuts them short.
pub struct Parsed {
    pub variants: Vec<Variant>,
    pub flaw: Option<Flaw>,
}

/// Decodes the files of the variants.
fn load_variants(files: &Vec<Option<String>>, contents: &Vec<Option<Vec<u8>>>) -> (loaded: Vec<
    Option<Result<Image, image::ImageError>>,
>)
    requires
        covers_files(file_views(files@), content_views(contents@)),
    ensures
        loaded_views(loaded@) == loading(file_views(files@), content_views(contents@)),
        forall|i: int|
            0 <= i < loaded@.len() ==> (#[trigger] loaded@[i] matches Some(Ok(image))
                ==> image@.wf()),
{
    let ghost names = file_views(files@);
    let ghost bytes = content_views(contents@);
    let ghost expected = loading(names, bytes);
    let mut loaded: Vec<Option<Result<Image, image::ImageError>>> = Vec::new();
    let mut i: usize = 0;
    while i < files.len()
        invariant
            names == file_views(files@),
            bytes == content_views(contents@),
            covers_files(names, bytes),
            expected == loading(names, bytes),
            i <= files@.len(),
            loaded@.len() == i,
            forall|k: int| 0 <= k < i ==> loaded_view(#[trigger] loaded@[k]) == expected[k],
            forall|k: int|
                0 <= k < i ==> (#[trigger] loaded@[k] matches Some(Ok(image)) ==> image@.wf()),
        decreases files@.len() - i,
    {
        assert(expected[i as int] == loading(names, bytes)[i as int]);
        let content: Option<&Vec<u8>> = if i < contents.len() {
            contents[i].as_ref()
        } else {
            None
        };
        let next: Option<Result<Image, image::ImageError>> = match (&files[i], content) {
            (Some(name), Some(content)) => {
                assert(names[i as int] == Some(name@));
                assert(bytes[i as int] == Some(content@));
                Some(decode_file(name.as_str(), content.as_slice()))
            },
            _ => None,
        };
        loaded.push(next);
        i = i + 1;
    }
    assert(loaded_views(loaded@) =~= expected);
    loaded
}

/// Encodes the pictures of the variants.
fn encode_variants(
    files: &Vec<Option<String>>,
    loaded: Vec<Option<Result<Image, image::ImageError>>>,
) -> (outcome: Result<Vec<Variant>, AssetError>)
    requires
        forall|i: int|
            0 <= i < loaded@.len() ==> (#[trigger] loaded@[i] matches Some(Ok(image))
                ==> image@.wf()),
    ensures
        match first_fault(file_views(files@), loaded_views(loaded@), 0) {
            Some(fault) => outcome matches Err(error) && error.fault() == fault,
            None => outcome matches Ok(variants) && variant_views(variants@) == variants_of(
                pictures_of(loaded_views(loaded@), files@.len()),
            ),
        },
        outcome is Ok ==> packed_faithfully(loaded_views(loaded@), files@.len()),
{
    let ghost names = file_views(files@);
    let ghost views = loaded_views(loaded@);
    let ghost given = loaded@;
    let mut rest: Vec<Option<Result<Image, image::ImageError>>> = loaded;
    let mut variants: Vec<Variant> = Vec::new();
    let mut i: usize = 0;
    while i < files.len()
        invariant
            names == file_views(files@),
            views == loaded_views(loaded@),
            given == loaded@,
            rest@.len() == given.len(),
            i <= files@.len(),
            variants@.len() == i,
            forall|k: int| i <= k < given.len() ==> #[trigger] rest@[k] == given[k],
            forall|k: int|
                0 <= k < given.len() ==> (#[trigger] given[k] matches Some(Ok(image))
                    ==> image@.wf()),
            forall|k: int| 0 <= k < i ==> (#[trigger] variant_fault(names, views, k)) is None,
            forall|k: int|
                0 <= k < i ==> (#[trigger] variants@[k])@ == variant_of(views[k]->0->0)
                    && stored_faithfully(views[k]->0->0, stream_of(views[k]->0->0)),
        decreases files@.len() - i,
    {
        if files[i].is_none() {
            proof {
                lemma_fault_stands(names, views, 0, i as int);
            }
            return Err(AssetError::Flawed(Flaw::NoVariantFile));
        }
        if i >= rest.len() {
            proof {
                lemma_fault_stands(names, views, 0, i as int);
            }
            return Err(AssetError::Flawed(Flaw::Unreadable { index: i }));
        }
        let taken: Option<Result<Image, image::ImageError>> = rest[i].take();
        assert(views[i as int] == loaded_view(given[i as int]));
        let decoded = match taken {
            Some(decoded) => decoded,
            None => {
                proof {
                    lemma_fault_stands(names, views, 0, i as int);
                }
                return Err(AssetError::Flawed(Flaw::Unreadable { index: i }));
            },
        };
        let image: Image = match decoded {
            Ok(image) => image,
            Err(error) => {
                proof {
                    lemma_fault_stands(names, views, 0, i as int);
                }
                return Err(AssetError::Decode(i, error));
            },
        };
        let png: Vec<u8> = match encode_png(&image) {
            Ok(png) => png,
            Err(error) => {
                proof {
                    lemma_fault_stands(names, views, 0, i as int);
                }
                return Err(AssetError::Encode(i, error));
            },
        };
        variants.push(Variant { width: image.width as u16, height: image.height as u16, png });
        i = i + 1;
    }
    proof {
        lemma_no_fault(names, views, 0);
        let pictures = pictures_of(views, files@.len());
        assert forall|k: int| 0 <= k < files@.len() implies variants@[k]@ == variant_of(
            #[trigger] pictures[k],
        ) && stored_faithfully(pictures[k], stream_of(pictures[k])) by {}
        assert(variant_views(variants@) =~= variants_of(pictures));
    }
    Ok(variants)
}

/// Looks for the first variant that does not decode.
fn first_failure(variants: &Vec<Variant>) -> (failure: Option<(usize, image::ImageError)>)
    requires
        covers_variants(variant_views(variants@)),
    ensures
        match failure {
            Some((index, _)) => index < variants@.len() && passed_count(
                variant_views(variants@),
                0,
            ) == index,
            None => passed_count(variant_views(variants@), 0) == variants@.len(),
        },
{
    let ghost stored = variant_views(variants@);
    let mut i: usize = 0;
    while i < variants.len()
        invariant
            stored == variant_views(variants@),
            covers_variants(stored),
            i <= variants@.len(),
            passed_count(stored, 0) == passed_count(stored, i as int),
        decreases variants@.len() - i,
    {
        assert(stored[i as int].png == variants@[i as int].png@);
        if let Err(error) = check_unlimited(variants[i].png.as_slice()) {
            return Some((i, error));
        }
        i = i + 1;
    }
    None
}

impl CxsiDriver {
    /// The files that a description names, one for each variant, `None` for a variant that names
    /// none.
    pub fn variant_files(&self, text: &str) -> (outcome: Result<Vec<Option<String>>, AssetError>)
        ensures
            match described_files(text@) {
                Ok(files) => outcome matches Ok(found) && file_views(found@) == files,
                Err(fault) => outcome matches Err(error) && error.fault() == fault,
            },
    {
        match read_toml(text) {
            Ok(document) => self.variant_files_in(&document),
            Err(error) => Err(AssetError::Toml(error)),
        }
    }

    /// The files that a description names, once it was read.
    pub fn variant_files_in(&self, document: &Node) -> (outcome: Result<
        Vec<Option<String>>,
        AssetError,
    >)
        ensures
            match files_in(document.tree()) {
                Ok(files) => outcome matches Ok(found) && file_views(found@) == files,
                Err(fault) => outcome matches Err(error) && error.fault() == fault,
            },
    {
        let items = match document.get_list("variants") {
            Some(items) => items,
            None => return Err(AssetError::Flawed(Flaw::NoVariants)),
        };
        if items.len() > 65535 {
            return Err(AssetError::Flawed(Flaw::TooManyVariants));
        }
        let ghost expected = files_in(document.tree())->Ok_0;
        let mut files: Vec<Option<String>> = Vec::new();
        let mut i: usize = 0;
        while i < items.len()
            invariant
                document.tree().named_list("variants"@) == Some(crate::tree::trees(items@)),
                expected.len() == items@.len(),
                forall|k: int|
                    0 <= k < items@.len() ==> #[trigger] expected[k]
                        == items@[k].tree().named_text("file"@),
                i <= items@.len(),
                files@.len() == i,
                forall|k: int|
                    0 <= k < i ==> #[trigger] file_views(files@)[k] == expected[k],
            decreases items@.len() - i,
        {
            let ghost before = files@;
            let file: Option<String> = match items[i].get_text("file") {
                Some(file) => Some(file.clone()),
                None => None,
            };
            files.push(file);
            i = i + 1;
            proof {
                assert forall|k: int| 0 <= k < i implies #[trigger] file_views(files@)[k]
                    == expected[k] by {
                    if k < i - 1 {
                        assert(files@[k] == before[k]);
                        assert(file_views(before)[k] == expected[k]);
                    }
                }
            }
        }
        assert(file_views(files@) =~= expected);
        Ok(files)
    }

    /// Puts the variants into a blob.
    pub fn assemble(&self, variants: &Vec<Variant>) -> (blob: Vec<u8>)
        ensures
            blob@ == cxsi_blob(variant_views(variants@)),
    {
        let ghost parts = variant_parts(variant_views(variants@));
        let mut blob: Vec<u8> = Vec::new();
        push_bytes(&mut blob, CXSI_MAGIC.as_slice());
        push_u16(&mut blob, variants.len() as u16);
        let ghost head = CXSI_MAGIC@ + le16(variants@.len() as u16);
        let mut i: usize = 0;
        assert(parts.take(0) =~= Seq::<Seq<u8>>::empty());
        assert(blob@ =~= head + joined(parts.take(0)));
        while i < variants.len()
            invariant
                parts == variant_parts(variant_views(variants@)),
                i <= variants@.len(),
                blob@ == head + joined(parts.take(i as int)),
            decreases variants@.len() - i,
        {
            let variant: &Variant = &variants[i];
            push_u16(&mut blob, variant.width);
            push_u16(&mut blob, variant.height);
            push_u32(&mut blob, variant.png.len() as u32);
            push_bytes(&mut blob, variant.png.as_slice());
            proof {
                lemma_joined_push(parts.take(i as int), parts[i as int]);
                assert(parts.take(i + 1) =~= parts.take(i as int).push(parts[i as int]));
                assert(parts[i as int] == variant_bytes(variant@));
                assert(blob@ =~= head + joined(parts.take(i + 1)));
            }
            i = i + 1;
        }
        assert(parts.take(i as int) =~= parts);
        blob
    }

    /// Packs the files that a description names; `contents` holds their bytes in the order of
    /// [`CxsiDriver::variant_files`], `None` standing for a file that could not be read.
    ///
    /// It packs nothing where there is a file that [`can_decode`] leaves out: such files are decoded
    /// elsewhere and given to [`CxsiDriver::pack_loaded`].
    pub fn pack(&self, text: &str, contents: &Vec<Option<Vec<u8>>>) -> (packed: Option<
        Result<Vec<u8>, AssetError>,
    >)
        ensures
            match described_files(text@) {
                Err(fault) => packed matches Some(Err(error)) && error.fault() == fault,
                Ok(files) => if !covers_files(files, content_views(contents@)) {
                    packed is None
                } else {
                    let loaded = loading(files, content_views(contents@));
                    packed matches Some(outcome) && packed_as(outcome, packing(files, loaded)) && (
                    outcome is Ok ==> packed_faithfully(loaded, files.len()))
                },
            },
    {
        let files = match self.variant_files(text) {
            Ok(files) => files,
            Err(error) => return Some(Err(error)),
        };
        self.pack_files(&files, contents)
    }

    /// Packs files with these contents.
    pub fn pack_files(
        &self,
        files: &Vec<Option<String>>,
        contents: &Vec<Option<Vec<u8>>>,
    ) -> (packed: Option<Result<Vec<u8>, AssetError>>)
        ensures
            if !covers_files(file_views(files@), content_views(contents@)) {
                packed is None
            } else {
                let loaded = loading(file_views(files@), content_views(contents@));
                packed matches Some(outcome) && packed_as(
                    outcome,
                    packing(file_views(files@), loaded),
                ) && (outcome is Ok ==> packed_faithfully(loaded, files@.len()))
            },
    {
        let ghost names = file_views(files@);
        let ghost bytes = content_views(contents@);
        let mut i: usize = 0;
        while i < files.len() && i < contents.len()
            invariant
                names == file_views(files@),
                bytes == content_views(contents@),
                i <= files@.len(),
                i <= contents@.len(),
                forall|k: int|
                    0 <= k < i && names[k] is Some && bytes[k] is Some ==> covers_file(
                        (#[trigger] names[k])->0,
                        bytes[k]->0,
                    ),
            decreases files@.len() - i,
        {
            if let (Some(name), Some(content)) = (&files[i], &contents[i]) {
                assert(names[i as int] == Some(name@));
                assert(bytes[i as int] == Some(content@));
                if !can_decode(name.as_str(), content.as_slice()) {
                    return None;
                }
            }
            i = i + 1;
        }
        assert(covers_files(names, bytes));
        let loaded = load_variants(files, contents);
        Some(self.pack_loaded(files, loaded))
    }

    /// Packs files that were loaded: `None` stands for a file that could not be read, and an error
    /// for one that does not decode.
    pub fn pack_loaded(
        &self,
        files: &Vec<Option<String>>,
        loaded: Vec<Option<Result<Image, image::ImageError>>>,
    ) -> (outcome: Result<Vec<u8>, AssetError>)
        requires
            forall|i: int|
                0 <= i < loaded@.len() ==> (#[trigger] loaded@[i] matches Some(Ok(image))
                    ==> image@.wf()),
        ensures
            packed_as(outcome, packing(file_views(files@), loaded_views(loaded@))),
            outcome is Ok ==> packed_faithfully(loaded_views(loaded@), files@.len()),
    {
        match encode_variants(files, loaded) {
            Ok(variants) => Ok(self.assemble(&variants)),
            Err(error) => Err(error),
        }
    }

    /// Whether [`CxsiDriver::unpack`] takes this blob: its variants are decoded here.
    pub fn can_unpack(&self, data: &[u8]) -> (can: bool)
        ensures
            can == unpackable(data@),
    {
        let parsed = match self.parse(data) {
            Ok(parsed) => parsed,
            Err(_) => return true,
        };
        let ghost stored = stored_variants(data@).0;
        let mut i: usize = 0;
        while i < parsed.variants.len()
            invariant
                header_flaw(data@) is None,
                stored == stored_variants(data@).0,
                stored == variant_views(parsed.variants@),
                i <= parsed.variants@.len(),
                forall|k: int| 0 <= k < i ==> covers_bytes((#[trigger] stored[k]).png),
            decreases parsed.variants@.len() - i,
        {
            assert(stored[i as int].png == parsed.variants@[i as int].png@);
            if !can_decode_bytes(parsed.variants[i].png.as_slice()) {
                return false;
            }
            i = i + 1;
        }
        true
    }

    /// Takes a blob apart.
    pub fn parse(&self, data: &[u8]) -> (outcome: Result<Parsed, Flaw>)
        ensures
            match header_flaw(data@) {
                Some(flaw) => outcome == Err::<Parsed, Flaw>(flaw),
                None => outcome matches Ok(parsed) && variant_views(parsed.variants@)
                    == stored_variants(data@).0 && parsed.flaw == stored_variants(data@).1,
            },
    {
        if data.len() < 6 {
            return Err(Flaw::TooShort);
        }
        if !holds_at(data, 0, CXSI_MAGIC.as_slice()) {
            return Err(Flaw::BadMagic);
        }
        let count: u16 = read_u16(data, 4);
        let ghost all = stored_variants(data@);
        let mut variants: Vec<Variant> = Vec::new();
        let mut at: usize = 6;
        let mut left: u16 = count;
        assert(variant_views(variants@) + all.0 =~= all.0);
        while left > 0
            invariant
                all == stored_variants(data@),
                header_flaw(data@) is None,
                at <= data@.len(),
                ({
                    let rest = variants_at(data@, at as int, left as nat);
                    &&& variant_views(variants@) + rest.0 == all.0
                    &&& rest.1 == all.1
                }),
            decreases left,
        {
            let ghost rest = variants_at(data@, at as int, left as nat);
            if data.len() - at < 8 {
                assert(variant_views(variants@) =~= all.0);
                return Ok(Parsed { variants, flaw: Some(Flaw::VariantsCutShort) });
            }
            let width: u16 = read_u16(data, at);
            let height: u16 = read_u16(data, at + 2);
            let size: u32 = read_u32(data, at + 4);
            if (data.len() - at - 8) as u64 <= u32::MAX as u64 && ((data.len() - at - 8) as u32)
                < size {
                assert(variant_views(variants@) =~= all.0);
                return Ok(Parsed { variants, flaw: Some(Flaw::PngCutShort) });
            }
            let from: usize = at + 8;
            let to: usize = from + size as usize;
            let png = copy_range(data, from, to);
            let ghost before = variant_views(variants@);
            variants.push(Variant { width, height, png });
            proof {
                let next = variants_at(data@, to as int, (left - 1) as nat);
                assert(variant_views(variants@) =~= before.push(rest.0[0]));
                assert(rest.0 == seq![rest.0[0]] + next.0);
                assert(variant_views(variants@) + next.0 =~= before + rest.0);
            }
            at = to;
            left = left - 1;
        }
        assert(variant_views(variants@) =~= all.0);
        Ok(Parsed { variants, flaw: None })
    }

    /// Says what to write of a blob that was taken apart, `failure` being the first variant that
    /// does not decode.
    pub fn export(&self, parsed: Parsed, failure: Option<(usize, image::ImageError)>) -> (unpacked:
        Unpacked<()>)
        requires
            failure matches Some((index, _)) ==> index < parsed.variants@.len(),
        ensures
            unpacked.says(
                exporting(
                    variant_views(parsed.variants@),
                    parsed.flaw,
                    match failure {
                        Some((index, _)) => index as int,
                        None => parsed.variants@.len() as int,
                    },
                ),
            ),
    {
        let ghost stored = variant_views(parsed.variants@);
        let count: usize = match &failure {
            Some((index, _)) => *index,
            None => parsed.variants.len(),
        };
        let mut effects: Vec<Effect> = Vec::new();
        effects.push(Effect::CreateFolder);
        let mut lines: Vec<String> = Vec::new();
        let mut i: usize = 0;
        assert(deeds(effects@) =~= seq![Deed::CreateFolder] + variant_files_written(stored, 0));
        assert(texts(lines@) =~= variant_lines(0));
        while i < count
            invariant
                stored == variant_views(parsed.variants@),
                i <= count <= parsed.variants@.len(),
                deeds(effects@) == seq![Deed::CreateFolder] + variant_files_written(
                    stored,
                    i as int,
                ),
                texts(lines@) == variant_lines(i as int),
            decreases count - i,
        {
            let ghost before_lines = texts(lines@);
            let mut name: String = "variant_".to_owned();
            name.append(padded_text(i as u64, 3).as_str());
            name.append(".png");
            let mut line: String = "{ file = \"".to_owned();
            line.append(name.as_str());
            line.append("\" }");
            assert(name@ == variant_name(i as int));
            assert(line@ == variant_lines(i + 1)[i as int]);
            let contents = copy_range(
                parsed.variants[i].png.as_slice(),
                0,
                parsed.variants[i].png.len(),
            );
            assert(contents@ =~= stored[i as int].png);
            let effect = Effect::WriteFile { name, contents };
            proof {
                lemma_deeds_push(effects@, effect);
            }
            effects.push(effect);
            lines.push(line);
            i = i + 1;
            assert(deeds(effects@) =~= seq![Deed::CreateFolder] + variant_files_written(
                stored,
                i as int,
            ));
            assert(texts(lines@) =~= before_lines.push(variant_lines(i as int)[i - 1]));
            assert(variant_lines(i as int) =~= variant_lines(i - 1).push(
                variant_lines(i as int)[i - 1],
            ));
        }
        if let Some((index, error)) = failure {
            return Unpacked { effects, outcome: Err(AssetError::Decode(index, error)) };
        }
        if let Some(flaw) = parsed.flaw {
            return Unpacked { effects, outcome: Err(AssetError::Flawed(flaw)) };
        }
        let mut text: String = "variants = [\n  ".to_owned();
        text.append(list_text(&lines, ",\n  ").as_str());
        text.append("\n]\n");
        assert(text@ == description(count as int));
        let effect = Effect::WriteFile {
            name: "simage.entry".to_owned(),
            contents: text_bytes(text.as_str()),
        };
        proof {
            lemma_deeds_push(effects@, effect);
        }
        effects.push(effect);
        Unpacked { effects, outcome: Ok(()) }
    }

    /// Unpacks a blob: every variant is checked to decode and written as the PNG it is stored as,
    /// and a description is written at the end.
    pub fn unpack(&self, data: &[u8]) -> (unpacked: Unpacked<()>)
        requires
            unpackable(data@),
        ensures
            unpacked.says(unpacking(data@)),
    {
        let parsed = match self.parse(data) {
            Ok(parsed) => parsed,
            Err(flaw) => {
                let effects: Vec<Effect> = Vec::new();
                assert(deeds(effects@) =~= Seq::<Deed>::empty());
                return Unpacked { effects, outcome: Err(AssetError::Flawed(flaw)) };
            },
        };
        let failure = first_failure(&parsed.variants);
        self.export(parsed, failure)
    }
}

} // verus!
