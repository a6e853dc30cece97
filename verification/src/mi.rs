//! Small self-contained utility modules shared by the gallery model.

pub mod bin;
pub mod fs;
pub mod img;
pub mod json;
