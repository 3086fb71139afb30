//! A crochet pattern modelled as a typed directed multigraph of stitches.
//!
//! The builder in [`pattern`] exposes the crochet operations — chains,
//! double crochets, decreases, turns, chain spaces, magic rings, sewing —
//! and enforces the row and insertion-point bookkeeping they rely on; every
//! operation's outcome is pinned exactly against a mathematical model of
//! the builder state. [`triangulate`] derives the geometry graph a layout
//! engine consumes, [`iso`] decides pattern equality up to graph
//! isomorphism, and [`embed`] makes the discrete choices of the layout
//! pipeline. [`parametric`] and [`script`] hold the data behind the visual
//! and textual front-ends, and [`code_view`] the state of a code editor.

pub mod code_view;
pub mod embed;
pub mod iso;
pub mod parametric;
pub mod pattern;
pub mod script;
pub mod triangulate;
