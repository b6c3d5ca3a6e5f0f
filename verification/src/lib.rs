//! Reader and re-packager for the layered TIFF container written by a
//! commercial drawing application.
//!
//! The container stores each drawing layer as a hidden image file directory
//! (IFD) reachable from the main directory through a vendor-private
//! sub-directory tag.  This crate walks the directory structure of such a
//! file, validating every offset against the file bounds, and rebuilds each
//! harvested directory as a minimal, self-contained TIFF byte stream whose
//! offsets are rewritten for the new, smaller file.

pub mod endian_rw;
pub mod synth;
pub mod tiff;
pub mod tiff_types;
