//! Rules and record engine for the game of Go: an immutable board with
//! capture, suicide and ko checking, a branching game record, and a session
//! that walks the record and derives the position at every node.

pub mod board;
pub mod color;
pub mod connectivity;
pub mod coords;
pub mod error;
pub mod flood;
pub mod game;
pub mod grid;
pub mod gtp;
pub mod laws;
pub mod metadata;
pub mod replay;
pub mod rules;
pub mod sgf;
pub mod text;
pub mod tree;
pub mod values;

use vstd::prelude::*;

pub use board::Board;
pub use color::StoneColor;
pub use coords::sgf_to_gtp;
pub use error::SgfError;
pub use game::Game;
pub use gtp::GtpResponse;
pub use metadata::GameMetadata;
pub use sgf::{parse_sgf, serialize_node};
pub use tree::{find_node_at_depth, find_path, get_max_depth, SgfNode, SgfProperty, SgfTree};

verus! {

/// Returns the sum of two numbers that fits 32 bits.
pub fn add(a: u32, b: u32) -> (sum: u32)
    requires
        a + b <= u32::MAX,
    ensures
        sum == a + b,
{
    a + b
}

} // verus!
