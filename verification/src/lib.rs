//! Tilemap walkability library: a rectangular grid container with a
//! ring-expanding nearest-match search, an origin-centered walkability
//! wrapper, and the integer coordinate transforms used to place entities
//! back onto walkable tiles.

pub mod animation;
pub mod coords;
pub mod grid;
pub mod health;
pub mod walkable;

pub use animation::SpriteAnimation;
pub use coords::Vec2i;
pub use grid::Grid;
pub use grid::GridError;
pub use health::Health;
pub use walkable::WalkableTiles;
