//! Search for a simple path with an exact number of vertices between two
//! vertices of an undirected graph.
//!
//! The search confirms paths in turn, beginning with a shortest one. Every
//! confirmed path is expanded into candidates that leave it at one of its
//! vertices, each found by a breadth-first search on the graph with some of
//! its edges suppressed; the edges are put back before the next search. The
//! next path to confirm is the greatest candidate, in the lexicographic order
//! of the vertex sequences.
//!
//! - [`graph`]: the graph store.
//! - [`path`]: the breadth-first search `bfs` and the search `yen` for a
//!   path of exact length.
//! - [`deviate`]: the candidates that leave a confirmed path.
//! - [`suppress`]: taking edges out of the graph and putting them back.
//! - [`pool`]: the pool of candidates; [`lex`]: their order.
//! - [`route`], [`answer`]: what the contracts speak of: walks, paths, the
//!   first shortest path, and what the search answers.
//! - [`levels`], [`firsts`], [`keep`], [`exist`], [`clearing`], [`candidate`],
//!   [`progress`], [`cover`], [`search`]: what the proofs need.

pub mod answer;
pub mod candidate;
pub mod clearing;
pub mod cover;
pub mod deviate;
pub mod exist;
pub mod firsts;
pub mod graph;
pub mod keep;
pub mod levels;
pub mod lex;
pub mod path;
pub mod pool;
pub mod progress;
pub mod route;
pub mod search;
pub mod suppress;
