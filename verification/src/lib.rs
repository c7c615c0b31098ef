//! Extract and re-inject Scaleform `.gfx`/`.swf` movies in Mercenaries 2 archives.
#![allow(unused_imports)]

pub mod archive;
pub mod asset_types;
pub mod block;
pub mod bytes;
pub mod checksum;
pub mod container;
pub mod error;
pub mod inspect;
pub mod layout;
pub mod movie;
pub mod patch;
pub mod sges;
pub mod strings;
pub mod text;
