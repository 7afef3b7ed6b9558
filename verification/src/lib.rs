//! Correlates subexpressions of a rendered math formula with the rectangular
//! regions they occupy in the output image.
//!
//! The crate works on plain-value models of the three inputs: the parsed
//! expression tree (with every span already resolved to a byte range or
//! marked unresolvable), the rendered frame tree (with integer coordinates),
//! and the source text as bytes. It produces one record per subexpression
//! that rendered to at least one attributable fragment.

pub mod ast;
pub mod correlate;
pub mod frame;
pub mod geom;
pub mod laws;
pub mod msg;
pub mod span;
