//! A categorical data-migration and query engine.
//!
//! A database structure is described as a finitely presented category (a
//! schema: entities, foreign keys, attributes, path equations), data as a
//! functor into sets (an instance), and schema translations as functors
//! (mappings).  On top of these the crate offers path-equation-driven
//! rewriting of paths, the migrations delta (pullback) and sigma (left Kan
//! extension), and an in-memory evaluator for query blocks.

pub mod aggregate;
pub mod eval;
pub mod instance;
pub mod mapping;
pub mod migrate;
pub mod optimize;
pub mod query;
pub mod schema;
pub mod text;
pub mod typeside;
pub mod validate;
