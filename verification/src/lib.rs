//! A verified core for an mdbook Kroki preprocessor.
//!
//! The library scans a tree of markdown documents — each given as a stream of
//! structural markup events — for embedded diagram directives, extracts every
//! directive together with a stable address of its owning document, rewrites
//! each directive's span to a unique placeholder token, and later splices the
//! rendered results back into the owning documents. The markdown tokenizer,
//! the file system and the rendering service are external collaborators: the
//! host parses documents into events, reads referenced files and performs the
//! render calls, while every decision — directive recognition, path
//! resolution, placeholder bookkeeping, addressing and write-back — is made
//! here, under contract.

pub mod directive;
pub mod errors;
pub mod events;
pub mod paths;
pub mod preprocessor;
pub mod render;
pub mod scanner;
pub mod text;
pub mod tree;
