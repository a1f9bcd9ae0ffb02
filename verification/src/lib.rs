//! A minimal photo-booth library: filenames for uploaded images encode a
//! location label and an upload timestamp; the gallery decodes and orders them.

pub mod codec;
pub mod errors;
pub mod geo;
pub mod gallery;
pub mod strutil;
pub mod upload;
