//! Splits an EPUB that interleaves a Japanese original with its Chinese
//! translation, paragraph by paragraph, into two single-language EPUBs.
//!
//! The two languages are told apart by inline style alone: the original is
//! faded (`opacity` below 1), the translation is shown normally. Paragraphs
//! that hold only an image or a blank line belong to both books.
pub mod audit;
pub mod epub;
pub mod lang;
pub mod markup;
pub mod metadata;
pub mod number;
pub mod paths;
pub mod pipeline;
pub mod split;
pub mod text;

pub use epub::Entry;
pub use lang::Lang;
