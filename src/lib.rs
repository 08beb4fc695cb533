//! Markup-to-plain-text conversion for a terminal web viewer, with the small
//! field decoders that read the host's response record.

pub mod text;
pub mod entity;
pub mod html;
pub mod laws;
pub mod response;
