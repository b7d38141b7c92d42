//! Preflop action-path resolution and result aggregation for six-max poker
//! spots.
//!
//! A spot is described by the seats that put money in before the flop. From
//! that description the library finds the canonical path of the preflop
//! history in a repository of solved actions, and with it the two players who
//! see the flop and where their ranges are stored. After the spot is solved it
//! lays out the line to replay on the solved tree and sums up the solver's
//! arrays per hand and per range.
//!
//! The library reads no files and calls no solver. Whatever comes from outside
//! is handed to it as plain values: the listing of a repository node, the
//! answer to a lookup, the arrays of a solved node.
//!
//! - [`position`]: the six seats and their two acting orders.
//! - [`path`]: path segments and repository keys.
//! - [`repository`]: choosing the recorded action from the listing of a node.
//! - [`canonical`]: the canonical path, as a mathematical definition.
//! - [`resolver`]: building the canonical path lookup by lookup.
//! - [`folds`]: where the folds in a canonical path come from.
//! - [`replay`]: the line to replay after the flop.
//! - [`aggregate`]: strategies per hand and the equity histogram.
//! - [`text`]: the characters and fields of a text.

pub mod aggregate;
pub mod canonical;
pub mod folds;
pub mod path;
pub mod position;
pub mod replay;
pub mod repository;
pub mod resolver;
pub mod text;
