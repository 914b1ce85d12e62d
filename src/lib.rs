//! Debian package indexes: parse the records of a `Packages` file, order them
//! so that each package follows the packages of the same index it depends on,
//! and list their source packages in that order.

pub mod index;
pub mod laws;
pub mod order;
pub mod record;
pub mod text;

pub use index::parse_index;
pub use order::{build_table, extract_pkg_or_sources, index_sources, order_packages, process_packages};
pub use record::{logical_lines, Pkg, PkgError};

