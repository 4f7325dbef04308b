//! A typed columnar codec.
//!
//! A declared data type ([`derive::TypeDecl`]) is resolved into a shape
//! ([`shape::Shape`]) with its column names settled by the naming rules
//! ([`case`]). Values ([`value::Value`]) of the shape are appended to a
//! column ([`column::Column`]) that keeps struct children, list items and
//! union variants aligned, and a column is read back row by row, after an
//! exact check of its logical type ([`codec`]).

pub mod case;
pub mod codec;
pub mod column;
pub mod derive;
pub mod shape;
pub mod types;
pub mod value;
