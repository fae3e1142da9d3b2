//! Solver for the card game Set: the card model, the full deck, reproducible
//! dealing, the enumeration of combinations of positions, the matching rule, the
//! searches for sets in a hand, the projection of a solved hand onto a grid,
//! and an index-based tree used to group nested outlines by depth.

pub mod attributes;
pub mod card;
pub mod triple;
pub mod combinations;
pub mod search;
pub mod table;
pub mod deal;
pub mod tree;
