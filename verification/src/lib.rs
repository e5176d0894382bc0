//! Conversion engine for turning an e-book package into its device-specific
//! variant: the manifest gains a cover-image annotation, every content
//! document's body is wrapped in layout scaffolding, and each sentence and
//! image is tagged with a uniquely numbered marker span, driven by a
//! finite-state sentence segmenter.
//!
//! Archive packing, document parsing and serialization, and the command
//! line live outside this crate; the library works on the plain tree
//! model of [`node`].

pub mod errors;
pub mod manifest;
pub mod node;
pub mod paths;
pub mod restructure;
pub mod segmenter;
pub mod spans;
