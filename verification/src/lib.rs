//! Markdown to `mdast`: a lexer over the source text, the tree of nodes, and
//! the parser that builds the tree from the tokens.

/// The bytes that markup is made of.
pub mod ascii;

/// The `mdast` tree: node kinds, content model, parents and visitors.
pub mod ast;

/// Flow content: the blocks of a document.
pub mod block;

/// Texts as characters: escapes and labels.
pub mod chars;

/// Phrasing content: the text of a block and its markup.
pub mod inline;

/// What holds of every document: the content model, and that the parser
/// moves on with every step.
pub mod laws;

/// The source text as a stream of tokens.
pub mod lexer;

/// The lines of the source.
pub mod line;

/// The parser: from the tokens of a source to its tree.
pub mod parser;

/// Tables: rows of cells under a row of alignments.
pub mod table;

/// Cutting a UTF-8 text at byte offsets.
pub mod text;
