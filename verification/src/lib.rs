//! Packs folders of game assets into binary blobs and one container, and back.
pub mod bytes;
pub mod cli;
pub mod codec;
pub mod container;
pub mod cxan;
pub mod cxmp;
pub mod cxsi;
pub mod cxta;
pub mod driver;
pub mod fault;
pub mod hitbox;
pub mod laws;
pub mod packer;
pub mod raster;
pub mod sheet;
pub mod sort;
pub mod text;
pub mod tiles;
pub mod tree;
