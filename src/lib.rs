//! Word spans of string literals: locating a literal by source line,
//! splitting its text into tokens with byte offsets, and filtering them.

pub mod error;
pub mod filter;
pub mod input;
pub mod locate;
pub mod segment;
pub mod span;
pub mod tiling;

pub use error::SpanError;
pub use filter::{filter_word_spans, text_matches, FilterMode};
pub use input::handle_string_command;
pub use locate::{locate, LiteralRecord, StringVisitor};
pub use segment::{
    get_word_spans, get_word_spans_default, get_word_spans_with_quoted_strings,
    push_segment_spans, spans_from_segments,
};
pub use span::WordSpan;
