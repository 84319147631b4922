//! Page-image layout primitives for an OCR pipeline: histograms, binary
//! morphology, connected components, seed filling, rank reduction, grey
//! image parsing and page-furniture heuristics, each with a verified
//! contract.

pub mod stats;
pub mod grid;
pub mod binreduce;
pub mod morph;
pub mod deskew;
pub mod seq_util;
pub mod grid_raster;
pub mod seedfill;
pub mod conncomp;
pub mod image_input;
pub mod line_segment;
pub mod blob_filter;
pub mod renderer;
pub mod binarize;
pub mod text;
pub mod page_furniture;
pub mod morphapp;
pub mod network;
