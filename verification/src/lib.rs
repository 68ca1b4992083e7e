//! Verified core of a PocketJS e-ink host: font-atlas parsing and the runtime
//! glyph cache, touch packing, the agent command injector, the manga page and
//! HTTP surface state, and Gray8 page composition.

pub mod chars;
pub mod touch;
pub mod text;
pub mod inject;
pub mod json;
pub mod http;
pub mod remote_image;
pub mod manga;
pub mod runtime_font;
pub mod cli;
pub mod probe;
