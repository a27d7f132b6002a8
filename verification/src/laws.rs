//! What the library promises as a whole, stated on what goes in and what comes out: on single bytes,
//! characters and pixels, and on how two results relate.
pub mod bytes;
pub mod cli;
pub mod codec;
pub mod container;
pub mod cxan;
pub mod cxmp;
pub mod cxsi;
pub mod cxta;
pub mod hitbox;
pub mod outcome;
pub mod packer;
pub mod pictures;
pub mod sort;
pub mod text;
pub mod tree;
