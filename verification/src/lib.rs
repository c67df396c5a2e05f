//! A verified core for a Manim-style animation engine: scene-graph
//! bookkeeping, authoring-time text rewriting, and the small parsers and
//! lookup tables the authoring API is built on.
pub mod atlas;
pub mod boolean;
pub mod chart;
pub mod direction;
pub mod easing;
pub mod layering;
pub mod listing;
pub mod errors;
pub mod formula;
pub mod frames;
pub mod grid;
pub mod isoline;
pub mod markup;
pub mod markup_style;
pub mod matching;
pub mod network;
pub mod palette;
pub mod raster;
pub mod riemann;
pub mod scan;
pub mod scene;
pub mod tabular;
pub mod tenths;
pub mod tex_parts;
pub mod text;
pub mod timeline;
pub mod typst_doc;
pub mod video;
