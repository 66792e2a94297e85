//! Schoener's D index of niche overlap, for plant-pollinator interaction
//! matrices.
//!
//! A matrix holds one row per plant and one column per pollinator; a cell
//! counts the interactions of the two. [`InteractionData::parse`] loads a
//! matrix from text records, [`InteractionData::normalize`] turns each
//! column into relative frequencies, and
//! [`InteractionData::schoener_indexes`] gives the index of every pair of
//! pollinators: one minus half the sum, over the plants, of the distance
//! between the two frequencies. [`SchoenerIndexes::sort`] orders the result
//! by index, stably.
//!
//! All values are held exactly, as quotients of whole numbers. A quotient by
//! zero is undefined, and so is whatever is computed from it.
//!
//! - [`input`] reads matrices, and [`input::field`] single counts;
//! - [`data`] holds matrices and indexes;
//! - [`model`] states the mathematics, over real numbers;
//! - [`ratio`] and [`order`] hold and order exact values;
//! - [`output`] and [`cli`] hold the choices of presentation;
//! - [`error`] and [`text`] put failures into words;
//! - [`laws`] states what holds of all of it.

pub mod cli;
pub mod data;
pub mod error;
pub mod input;
pub mod laws;
pub mod model;
pub mod order;
pub mod output;
pub mod ratio;
pub mod text;

pub use cli::SortDirection;
pub use data::{InteractionData, SchoenerD, SchoenerIndexes};
pub use error::Error;
pub use input::{Input, Loader};
pub use output::{Output, OutputFormat};
pub use ratio::Ratio;
