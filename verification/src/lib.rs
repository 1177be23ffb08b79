//! A line-oriented markdown parser.
//!
//! The library walks a document in a single forward pass and hands back the
//! sequence of block elements it contains (headings, list items, quotes,
//! code blocks, command blocks, tables, and so on).  The text carried by a
//! block can then be split further into decorated inline spans (bold,
//! italic, code, links, ...) by [`PartsIterator`].
//!
//! Every public function carries a contract that pins its result down as a
//! function of the input character sequence; the parsing state machines are
//! specified by recursive specification functions over `Seq<char>` and the
//! executable code is verified against them.

pub mod text;
pub mod model;
pub mod elements;
pub mod classify;
pub mod scan;
pub mod inline;
pub mod args;
pub mod table;
pub mod utilities;
pub mod lexical;
pub mod laws;

pub use elements::{
    CommandBlock, MarkdownElement, MarkdownTextElement, ParseDiagnostic, ParseOptions,
    RawMarkdown, RawText, Table, TableRow,
};
pub use classify::decide;
pub use scan::{parse, parse_with_options, strip_surrounds, ParseOutput};
pub use inline::PartsIterator;
pub use lexical::{lexical_analysis, LexicalAnalyser, LexicalEvent};
pub use utilities::{extract_code_blocks, parse_blocks, parse_with_header_information, CodeBlock};
