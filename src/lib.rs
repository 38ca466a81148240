//! Renders a fenced block of source text into HTML, either with inline theme
//! colours or with CSS classes named after the lexical scopes.
mod trusted;

pub use trusted::Rgba;

pub mod markup;
pub mod resolve;
pub mod codeblock;
