//! The drivers of the asset formats, and what unpacking asks to be done.
use vstd::prelude::*;

use crate::cxan::CxanDriver;
use crate::fault::{AssetError, Fault};

verus! {

/// A format that folders of assets are packed into.
pub trait AssetDriver: Send + Sync {
    spec fn magic_bytes(&self) -> Seq<u8>;

    spec fn extension_text(&self) -> Seq<char>;

    spec fn entry_text(&self) -> Seq<char>;

    /// The four bytes that every blob of the format begins with.
    fn magic(&self) -> (magic: &[u8; 4])
        ensures
            magic@ == self.magic_bytes(),
    ;

    /// The end of the names of blobs of the format, such as ".cxan".
    fn extension(&self) -> (extension: &str)
        ensures
            extension@ == self.extension_text(),
    ;

    /// The name of the file that marks a folder of assets of the format.
    fn entry_file(&self) -> (entry: &str)
        ensures
            entry@ == self.entry_text(),
    ;
}

/// The drivers in use.
pub fn get_drivers() -> (drivers: Vec<Box<dyn AssetDriver>>)
    ensures
        drivers@.len() == 1,
        drivers@[0].magic_bytes() == crate::cxan::CXAN_MAGIC@,
        drivers@[0].extension_text() == ".cxan"@,
        drivers@[0].entry_text() == "animation.entry"@,
{
    let driver: Box<dyn AssetDriver> = Box::new(CxanDriver);
    let drivers = vec![driver];
    assert(drivers@[0] == driver);
    drivers
}

/// One thing to be done in the folder that a blob is unpacked into.
pub enum Effect {
    /// Create the folder.
    CreateFolder,
    /// Write a file in the folder.
    WriteFile { name: String, contents: Vec<u8> },
}

/// What an [`Effect`] does.
#[verifier::ext_equal]
pub enum Deed {
    CreateFolder,
    WriteFile { name: Seq<char>, contents: Seq<u8> },
}

impl View for Effect {
    type V = Deed;

    open spec fn view(&self) -> Deed {
        match self {
            Effect::CreateFolder => Deed::CreateFolder,
            Effect::WriteFile { name, contents } => Deed::WriteFile {
                name: name@,
                contents: contents@,
            },
        }
    }
}

/// What the effects do, one after the other.
pub open spec fn deeds(effects: Seq<Effect>) -> Seq<Deed> {
    Seq::new(effects.len(), |i: int| effects[i]@)
}

/// What unpacking a blob comes to: the effects in their order, and then the outcome.
pub struct Unpacked<T> {
    pub effects: Vec<Effect>,
    pub outcome: Result<T, AssetError>,
}

/// What an [`Unpacked`] says.
pub struct Unpacking<T> {
    pub deeds: Seq<Deed>,
    pub outcome: Result<T, Fault>,
}

impl<T> Unpacked<T> {
    /// Whether this says the same as the description.
    pub open spec fn says(self, described: Unpacking<T>) -> bool {
        &&& deeds(self.effects@) == described.deeds
        &&& match described.outcome {
            Ok(value) => self.outcome == Ok::<T, AssetError>(value),
            Err(fault) => self.outcome matches Err(error) && error.fault() == fault,
        }
    }
}

/// Adds an effect behind the others.
pub proof fn lemma_deeds_push(effects: Seq<Effect>, effect: Effect)
    ensures
        deeds(effects.push(effect)) == deeds(effects).push(effect@),
{
    assert(deeds(effects.push(effect)) =~= deeds(effects).push(effect@));
}

} // verus!
