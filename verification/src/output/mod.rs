//! What is shown, as lines of styled text.

pub mod line;
pub mod renderer;

pub use line::{Line, Span, Style};
pub use renderer::Renderer;
