//! Vectorises a raster with transparency into flat-coloured polygons.
//!
//! The pixels of one exact colour are grouped into maximal 4-connected
//! regions, the outline of every region is cut into unit edges on the lattice
//! of pixel corners, the edges are walked into closed point loops, and the
//! loops are written out as one SVG path per region.

pub mod area;
pub mod boundary;
pub mod components;
pub mod convert;
pub mod geometry;
pub mod grid;
pub mod join;
pub mod loops;
pub mod opacity;
pub mod outline;
pub mod raster;
pub mod segment;
pub mod seq_facts;
pub mod svg;
pub mod walks;

pub use boundary::boundary_edges;
pub use convert::{grid_to_svg, render_regions, rgba_image_to_svg_contiguous};
pub use geometry::{Color, Edge, Point};
pub use grid::PixelGrid;
pub use join::joined_edges;
pub use raster::Raster;
pub use segment::{segment_regions, Region};
pub use svg::{path_element, svg_header};
