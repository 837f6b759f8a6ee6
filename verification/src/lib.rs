//! A template filler: finds `{name}` placeholders in a text and replaces each
//! of them with a value.

pub mod chars;
pub mod filling;
pub mod laws;
pub mod model;
pub mod session;
pub mod text;

pub use session::{trim_line_end, Session};
pub use text::{Form, Text};
