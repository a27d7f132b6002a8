//! What can be wrong with the assets and blobs that are handed in.
use vstd::prelude::*;

verus! {

/// A rule of a format that the input breaks.
#[derive(Clone, Copy, Debug, PartialEq, Eq, Structural)]
pub enum Flaw {
    /// A blob or container is shorter than its header.
    TooShort,
    /// A blob or container does not begin with its magic.
    BadMagic,
    /// The input with this index could not be read.
    Unreadable { index: usize },
    /// A folder of frames holds no PNG file.
    NoFrames,
    /// An animation has more frames than its frame count can say.
    TooManyFrames,
    /// A frame does not fit on a page.
    FrameTooLarge,
    /// A frame has other dimensions than the first one.
    FrameSizeDiffers { index: usize, width: u32, height: u32, first_width: u32, first_height: u32 },
    /// The pages of an animation end early.
    PagesCutShort,
    /// A page does not begin with its magic.
    BadPageMagic,
    /// An embedded PNG ends early.
    PngCutShort,
    /// The frame map of an animation ends early.
    FrameMapCutShort,
    /// The rectangle of this frame or item reaches outside its picture, or its page is missing.
    CellOutside { index: usize },
    /// A description names no variants.
    NoVariants,
    /// There are more variants than a variant count can say.
    TooManyVariants,
    /// A variant names no file.
    NoVariantFile,
    /// The variants of a blob end early.
    VariantsCutShort,
    /// An atlas has no images.
    NoImages,
    /// An image has other dimensions than the first one by name.
    ImageSizeDiffers { index: usize, width: u32, height: u32, first_width: u32, first_height: u32 },
    /// The images do not fit on one atlas.
    AtlasTooLarge,
    /// The items of an atlas end early.
    ItemsCutShort,
    /// A map has tiles of size zero.
    ZeroTileSize,
    /// A file is too large for its size field.
    FileTooLarge { index: usize },
    /// A container ends early.
    ContainerCutShort,
    /// A path does not lie under the directory of the assets.
    OutsideRoot,
}

/// Why assets could not be packed or a blob could not be unpacked.
#[derive(Debug)]
pub enum AssetError {
    /// A rule of the format is broken.
    Flawed(Flaw),
    /// A description is no valid TOML.
    Toml(toml::de::Error),
    /// The picture with this index could not be decoded.
    Decode(usize, image::ImageError),
    /// The picture with this index could not be encoded for a blob.
    Encode(usize, png::EncodingError),
    /// The picture with this index could not be encoded for a file.
    Save(usize, image::ImageError),
}

/// What an [`AssetError`] says, but for the words of the libraries below.
pub enum Fault {
    Flawed(Flaw),
    Toml,
    Decode(int),
    Encode(int),
    Save(int),
}

impl AssetError {
    pub open spec fn fault(self) -> Fault {
        match self {
            AssetError::Flawed(flaw) => Fault::Flawed(flaw),
            AssetError::Toml(_) => Fault::Toml,
            AssetError::Decode(index, _) => Fault::Decode(index as int),
            AssetError::Encode(index, _) => Fault::Encode(index as int),
            AssetError::Save(index, _) => Fault::Save(index as int),
        }
    }
}

/// Whether packing came out as described: the bytes, or the fault.
pub open spec fn packed_as(
    outcome: Result<Vec<u8>, AssetError>,
    described: Result<Seq<u8>, Fault>,
) -> bool {
    match described {
        Ok(bytes) => outcome matches Ok(blob) && blob@ == bytes,
        Err(fault) => outcome matches Err(error) && error.fault() == fault,
    }
}

/// The error of the `toml` crate.
#[verifier::external_type_specification]
#[verifier::external_body]
pub struct ExTomlError(toml::de::Error);

/// The error of the `image` crate.
#[verifier::external_type_specification]
#[verifier::external_body]
pub struct ExImageError(image::ImageError);

/// The error with which the `png` crate refuses to encode.
#[verifier::external_type_specification]
#[verifier::external_body]
pub struct ExEncodingError(png::EncodingError);

} // verus!
