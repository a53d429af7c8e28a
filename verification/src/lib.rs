//! Rasterises halo merger trees.
//!
//! A merger forest is held as flat, identifier-addressed columns: for
//! every halo the first progenitor, the next sibling in the progenitor
//! list of its descendant, and a type. For the tree of one final
//! descendant the library
//!
//! * reorders the progenitor lists so that at every branch point the
//!   deepest branch comes first ([`reorder_progenitors`]),
//! * walks the tree depth first and gives every halo a row and a column,
//!   bridging the snapshots that a branch skips ([`place_pixels`]), and
//! * scatters the cells into a dense raster ([`build_raster`]).
//!
//! Every function is verified against a contract over the mathematical
//! content of the store ([`forest::Forest`]). The columns themselves are
//! `ndarray` arrays, reached through the unproved functions of
//! [`column`]. Masses and positions are floating-point numbers and stay
//! with the caller: a cell names the halos it draws on and how far
//! between them it lies.

pub mod column;
pub mod coverage;
pub mod error;
pub mod forest;
pub mod ident;
pub mod layout;
pub mod lineage;
pub mod pipeline;
pub mod raster;
pub mod reorder;
pub mod rotate;
pub mod siblings;
pub mod tree;

pub use crate::error::TreeError;
pub use crate::forest::{halo_types, HaloProps};
pub use crate::ident::{decode, encode, id_to_ind, id_to_snap, id_to_snap_ind};
pub use crate::layout::{lerp, place_pixels, walk_and_place_pixels, ImageProps, Pixel};
pub use crate::pipeline::{tree_image, TreeImage};
pub use crate::raster::{build_raster, fills_distinct_cells, type_raster};
pub use crate::reorder::reorder_progenitors;
pub use crate::rotate::{leader_depth, promote, relink};
pub use crate::siblings::collect_siblings;
