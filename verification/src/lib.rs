//! Verified core of a lightweight Steam library companion: text scanning of
//! Steam's configuration files, ordering of the game library and the
//! construction of the paths, URIs and search URLs the client uses.

pub mod number;
pub mod text;
pub mod vdf;
pub mod library;
pub mod paths;
pub mod process;
pub mod store;
pub mod filter;

pub use library::{organize_library, SteamGame};
pub use store::SearchResultItem;
pub use vdf::{extract_vdf_value, parse_stats_from_vdf, GameStats};
