//! Core of a toy browser engine: an HTML parser producing a document tree,
//! a style engine that matches selectors and cascades declarations into a
//! styled tree, and a block layout engine that turns the styled tree into a
//! tree of boxes with computed pixel geometry.

pub mod css;
pub mod dom;
pub mod html;
pub mod layout;
pub mod style;
pub mod strutil;
