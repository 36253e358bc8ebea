//! An mdbook preprocessor that turns fenced code blocks marked with `%%` into
//! HTML `<pre><code>` blocks, where each pair of markers encloses a span of
//! user input.

pub mod book;
pub mod fence;
pub mod text;

pub use book::{Book, BookItem, Chapter, CodePreprocessor};
pub use fence::{render_block, rewrite_chapter};
