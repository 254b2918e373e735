//! Bounding-box annotation model: label taxonomies, the normalized label-line
//! codec, a dataset cursor with filtered navigation, and the matching rules
//! used to carry boxes from a coarse taxonomy over to a finer one.
pub mod dataset;
pub mod label;
pub mod paths;
pub mod relabeling;
pub mod text;
pub mod yolo;
