//! Map rendering and routing over fixed-point geographic coordinates.
//!
//! Coordinates are held in decimicro-degrees (1e-7 degree), the precision in
//! which map data is stored, so that node identity is exact integer identity.
//!
//! - `coord`: coordinates, edges and node ids.
//! - `node`: map nodes with their tags, looked up by id.
//! - `graph`: the undirected road graph built from polylines, and A* search.
//! - `projector`: bounding boxes and the linear projection to pixels.
//! - `canvas`: RGBA images and the image operations the drawing relies on.
//! - `raster`: alpha blending, anti-aliased lines and perpendicular offsets.
//! - `layers`: polylines, routes, filled rings and multipolygons.
//! - `tiles`: rendering a map tile by tile and stitching the tiles together.
//! - `osm`: turning parsed ways and relations into polylines and rings.
pub mod canvas;
pub mod coord;
pub mod graph;
pub mod layers;
pub mod osm;
pub mod projector;
pub mod raster;
pub mod tiles;
pub mod node;
