//! What functions come to, and what they ask for.
use vstd::prelude::*;

use crate::codec::{covers_bytes, picture_of};
use crate::container::{file_views, PackedFile};
use crate::cxan::{page_views, CxanDriver, Page};
use crate::cxmp::CxmpDriver;
use crate::cxsi::{variant_views, CxsiDriver, Variant};
use crate::cxta::CxtaDriver;
use crate::driver::{deeds, AssetDriver, Deed, Effect, Unpacked, Unpacking};
use crate::fault::{packed_as, AssetError, Fault};
use crate::hitbox::{placed_views, PlacedHitbox};
use crate::raster::{rasters, Image};
use crate::sheet::{of_size, shown};
use crate::tiles::enough_pixels;

verus! {

/// Packing comes out as described if it gives the described bytes, or fails by the described fault.
pub proof fn packing_comes_out_as_described(
    outcome: Result<Vec<u8>, AssetError>,
    described: Result<Seq<u8>, Fault>,
)
    requires
        packed_as(outcome, described),
    ensures
        described matches Ok(bytes) ==> outcome matches Ok(blob) && blob@ == bytes,
        described matches Err(fault) ==> outcome matches Err(error) && error.fault() == fault,
{
}

/// An error tells its kind, its flaw and the index of the picture that it is about.
pub proof fn errors_tell_their_kind(error: AssetError)
    ensures
        match error.fault() {
            Fault::Flawed(flaw) => error matches AssetError::Flawed(own) && own == flaw,
            Fault::Toml => error is Toml,
            Fault::Decode(i) => error matches AssetError::Decode(own, _) && own == i,
            Fault::Encode(i) => error matches AssetError::Encode(own, _) && own == i,
            Fault::Save(i) => error matches AssetError::Save(own, _) && own == i,
        },
{
}

/// Unpacking comes out as described if its effects are the described deeds, one by one, and its
/// outcome the described one.
pub proof fn unpacking_comes_out_as_described<T>(
    unpacked: Unpacked<T>,
    described: Unpacking<T>,
    i: int,
)
    requires
        unpacked.says(described),
    ensures
        unpacked.effects@.len() == described.deeds.len(),
        0 <= i < unpacked.effects@.len() ==> match unpacked.effects@[i] {
            Effect::CreateFolder => described.deeds[i] is CreateFolder,
            Effect::WriteFile { name, contents } => described.deeds[i] == (Deed::WriteFile {
                name: name@,
                contents: contents@,
            }),
        },
        described.outcome matches Ok(value) ==> unpacked.outcome == Ok::<T, AssetError>(value),
        described.outcome matches Err(fault) ==> unpacked.outcome matches Err(error) && error.fault()
            == fault,
{
    let all = deeds(unpacked.effects@);
    assert(all.len() == unpacked.effects@.len());
    if 0 <= i < all.len() {
        assert(all[i] == unpacked.effects@[i]@);
    }
}

/// Images show their dimensions and pixels, in order.
pub proof fn images_show_themselves(images: Seq<Image>, i: int)
    requires
        0 <= i < images.len(),
    ensures
        rasters(images).len() == images.len(),
        rasters(images)[i].width == images[i].width,
        rasters(images)[i].height == images[i].height,
        rasters(images)[i].pixels == images[i].pixels@,
        rasters(images)[i].wf() == (images[i].pixels@.len() == 4 * (images[i].width
            * images[i].height)),
{
}

/// Frames can be packed if there is one and all have the same dimensions, none of them zero, and as
/// many bytes as these ask for.
pub proof fn ordinary_frames_can_be_packed(frames: Seq<Image>, width: u32, height: u32)
    requires
        frames.len() > 0,
        width > 0,
        height > 0,
        forall|i: int|
            0 <= i < frames.len() ==> (#[trigger] frames[i]).width == width && frames[i].height
                == height && frames[i].pixels@.len() == 4 * (width * height),
    ensures
        crate::cxan::packable(rasters(frames)),
{
    let views = rasters(frames);
    assert(views[0] == frames[0]@);
    assert forall|i: int| 0 <= i < views.len() implies (#[trigger] views[i]).wf() && views[i].width
        == width && views[i].height == height by {
        assert(views[i] == frames[i]@);
    }
}

/// Tiles can be put together if the bytes of all of them are there, four to a pixel.
pub proof fn tiles_need_their_bytes(length: int, size: int, cols: int, rows: int)
    ensures
        enough_pixels(length, size, cols, rows) == ((cols * rows) * (4 * (size * size)) <= length),
{
}

/// A blob whose header is broken can be handed to unpacking, which refuses it; one whose pages are
/// all decoded here can be, and no other.
pub proof fn animations_are_unpacked_if_their_pages_are_covered(data: Seq<u8>)
    ensures
        crate::cxan::unpackable(data) == (crate::cxan::header_flaw(data) is Some || forall|p: int|
            0 <= p < crate::cxan::stored_pages(data).0.len() ==> covers_bytes(
                (#[trigger] crate::cxan::stored_pages(data).0[p]).png,
            )),
{
}

/// The same of images in several variants.
pub proof fn images_are_unpacked_if_their_variants_are_covered(data: Seq<u8>)
    ensures
        crate::cxsi::unpackable(data) == (crate::cxsi::header_flaw(data) is Some || forall|i: int|
            0 <= i < crate::cxsi::stored_variants(data).0.len() ==> covers_bytes(
                (#[trigger] crate::cxsi::stored_variants(data).0[i]).png,
            )),
{
}

/// The same of atlases.
pub proof fn atlases_are_unpacked_if_their_png_is_covered(data: Seq<u8>)
    ensures
        crate::cxta::unpackable(data) == (crate::cxta::header_flaw(data) is Some || covers_bytes(
            crate::cxta::stored_png(data),
        )),
{
}

/// What a decoder returned is the picture that the image shows, or none.
pub proof fn decoders_return_pictures(outcome: Result<Image, image::ImageError>)
    ensures
        match outcome {
            Ok(image) => picture_of(outcome) == Some(image@),
            Err(_) => picture_of(outcome) is None,
        },
{
}

/// The drivers say which bytes their blobs begin with, in which extension the names of these end,
/// and which file marks a folder of theirs.
pub proof fn drivers_say_who_they_are()
    ensures
        CxanDriver.magic_bytes() == seq![67u8, 88, 65, 78],
        CxanDriver.extension_text() == ".cxan"@,
        CxanDriver.entry_text() == "animation.entry"@,
        CxsiDriver.magic_bytes() == seq![67u8, 88, 83, 73],
        CxsiDriver.extension_text() == ".cxsi"@,
        CxsiDriver.entry_text() == "simage.entry"@,
        CxtaDriver.magic_bytes() == seq![67u8, 88, 84, 65],
        CxtaDriver.extension_text() == ".cxta"@,
        CxtaDriver.entry_text() == "atlas.entry"@,
        CxmpDriver.magic_bytes() == seq![67u8, 88, 77, 80],
        CxmpDriver.extension_text() == ".cxmp"@,
        CxmpDriver.entry_text() == "map.entry"@,
{
    assert(CxanDriver.magic_bytes() =~= seq![67u8, 88, 65, 78]);
    assert(CxsiDriver.magic_bytes() =~= seq![67u8, 88, 83, 73]);
    assert(CxtaDriver.magic_bytes() =~= seq![67u8, 88, 84, 65]);
    assert(CxmpDriver.magic_bytes() =~= seq![67u8, 88, 77, 80]);
}

/// A stored page, a stored variant and a placed hitbox say each of their fields.
pub proof fn stored_things_say_their_fields(page: Page, variant: Variant, placed: PlacedHitbox)
    ensures
        page@.cols == page.cols && page@.rows == page.rows && page@.width == page.width
            && page@.height == page.height && page@.png == page.png@,
        variant@.width == variant.width && variant@.height == variant.height && variant@.png
            == variant.png@,
        placed@.range == placed.range && placed@.xs == placed.xs@ && placed@.ys == placed.ys@
            && placed@.w == placed.w && placed@.h == placed.h && placed@.rotation
            == placed.rotation,
{
}

/// Lists of pages, variants and placed hitboxes say what each of their items says, in order.
pub proof fn lists_say_their_items(
    pages: Seq<Page>,
    variants: Seq<Variant>,
    placed: Seq<PlacedHitbox>,
    files: Seq<PackedFile>,
    i: int,
)
    ensures
        page_views(pages).len() == pages.len(),
        0 <= i < pages.len() ==> page_views(pages)[i] == pages[i]@,
        variant_views(variants).len() == variants.len(),
        0 <= i < variants.len() ==> variant_views(variants)[i] == variants[i]@,
        placed_views(placed).len() == placed.len(),
        0 <= i < placed.len() ==> placed_views(placed)[i] == placed[i]@,
        file_views(files).len() == files.len(),
        0 <= i < files.len() ==> file_views(files)[i].name == files[i].name@ && file_views(
            files,
        )[i].data == files[i].data@,
{
}

/// Pictures can be laid out on a sheet if all have its dimensions and as many bytes as these ask
/// for.
pub proof fn pictures_of_one_size(images: Seq<&Image>, width: u32, height: u32)
    requires
        forall|i: int|
            0 <= i < images.len() ==> (#[trigger] images[i]).width == width && images[i].height
                == height && images[i].pixels@.len() == 4 * (width * height),
    ensures
        shown(images).len() == images.len(),
        of_size(shown(images), width, height),
{
    let views = shown(images);
    assert forall|i: int| 0 <= i < views.len() implies (#[trigger] views[i]).wf() && views[i].width
        == width && views[i].height == height by {
        assert(views[i] == images[i]@);
    }
}

} // verus!
