//! Ingestion of flashcard-style question/answer files: whitespace
//! normalization, line parsing with error recovery, and key-based merging of
//! equal questions into a single corpus.
pub mod corpus;
pub mod normalize;
pub mod parser;
pub mod question;
