//! A hierarchical, namespaced key-value store on top of a flat sorted
//! key-value engine.
//!
//! Logical keys are dot-delimited paths (`Vehicle.Infotainment.Radio.Volume`)
//! scoped by a namespace string.  Namespace and path are folded into a single
//! physical key; subtree listing, substring search and recursive deletion are
//! recovered from ordered prefix scans over the physical key space.
//!
//! - [`lex`] defines the lexicographic key order and decides it in code;
//! - [`strutil`] holds the string scans: prefix, substring, depth truncation;
//! - [`engine`] is the sorted store itself, viewed as a map;
//! - [`codec`] folds `(namespace, path)` into physical keys and models every
//!   operation on the map;
//! - [`facade`] wraps the engine in an open/close/destroy lifecycle;
//! - [`service`] answers the write/read/delete/search/traverse requests;
//! - [`laws`] proves the properties the model keeps across operations.

pub mod lex;
pub mod strutil;
pub mod engine;
pub mod codec;
pub mod facade;
pub mod service;
pub mod laws;
