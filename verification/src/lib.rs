//! Verified core of a static photo-gallery generator.
//!
//! The library models directories of source photographs as plain values
//! (paths and raw bytes), groups them into named collections, assigns every
//! image a content-derived identity, removes duplicate sources across the
//! whole gallery, plans the resize/recode jobs that still have to run, and
//! produces the manifest text that is spliced into the output page.
//!
//! All file, thread and codec work lives outside this crate; callers hand in
//! directory listings and file bytes and receive job plans and manifest text.

pub mod configuration;
pub mod gallery;
pub mod mi;
