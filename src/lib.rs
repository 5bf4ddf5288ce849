pub mod directive;
pub mod laws;
pub mod plugin;
pub mod text;

pub use directive::{normalize, parse_directive, render_directive, Directive};
pub use text::{format_shebang, DecodeError};
pub use plugin::{Configuration, ShebangPluginHandler};
