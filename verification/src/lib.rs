//! Determinization of FlatPPL modules: the measure-layer legalizer, the
//! canonicalization passes, the FlatPDL conformance rules and the structural
//! helpers they share, over an arena IR whose well-formedness is proved.

pub mod ir;
pub mod term;
pub mod tree;
pub mod refuse;
pub mod shape;
pub mod reach;
pub mod driver;
pub mod text;
pub mod disintegrate;
pub mod conformance;
pub mod canon;
pub mod invert;
pub mod density;
pub mod density_broadcast;
pub mod projection;
pub mod kernel_broadcast;
pub mod chain;
pub mod dispatch;
