//! Authorization tokens made of signed blocks of datalog facts, rules and
//! caveats.
//!
//! - [`symbols`]: append-only interning of names into ids.
//! - [`datalog`]: terms, predicates, rules and caveats over ids, with their
//!   mathematical views.
//! - [`expr`]: the stack machine that evaluates postfix expressions.
//! - [`solver`]: the bounded bottom-up fixpoint engine and its laws.
//! - [`authorizer`]: caveats (OR of queries), ordered allow/deny policies,
//!   and the orchestration of a verification.
//! - [`codec`]: the byte encoding of a block that its signature covers.
//! - [`token`]: blocks, the ed25519 signature chain that links them,
//!   attenuation and sealing.
//! - [`builder`]: values named by strings and their conversion through a
//!   symbol table; block and token builders.
//! - [`parser`] and [`render`]: the datalog text syntax, read and written.
pub mod error;
pub mod symbols;
pub mod datalog;
pub mod text;
pub mod expr;
pub mod solver;
pub mod codec;
pub mod token;
pub mod authorizer;
pub mod builder;
pub mod parser;
pub mod render;
