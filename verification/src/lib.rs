//! A wave-function-collapse style tile solver.
//!
//! A [`Catalog`](tiles::Catalog) of tile rules states, per side, which tiles
//! may stand next to which, and optionally how strongly a tile prefers each
//! neighbor.  A [`Grid`](grid::Grid) of cells, each holding a domain of
//! still-possible tile identifiers, is narrowed one collapse-and-propagate
//! cycle at a time until every cell holds at most one candidate.

pub mod color;
pub mod grid;
pub mod laws;
pub mod rng;
pub mod solver;
pub mod tiles;

pub use color::HexColor;
pub use grid::Grid;
pub use rng::RandomSource;
pub use tiles::Catalog;
pub use tiles::Side;
pub use tiles::SolverError;
pub use tiles::TileInfo;
pub use tiles::TilesConfig;
