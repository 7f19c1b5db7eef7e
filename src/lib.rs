//! A compiler for a small line-oriented branching-dialogue language.
//!
//! Source text is classified line by line into a script document
//! (`reader`), which the two-pass assembler (`writer`) serialises into a
//! pipe-delimited token stream whose choice tokens carry fixed-width byte
//! offsets of their targets. `laws` states and proves properties of the
//! compiler; `epub_writer` lays the document out as e-book pages.
pub mod epub_writer;
pub mod laws;
pub mod reader;
pub mod text;
pub mod writer;
