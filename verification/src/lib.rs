//! XML as a tree that can be walked and changed.
//!
//! [`XmlDom::open`] and [`XmlDom::parse`] read a document into a table of
//! items, [`XmlItem`] walks and changes it, and [`XmlItem::as_string`] writes
//! it as text again.
pub mod element;
pub mod error;
pub mod round_trip;
pub mod text;
pub mod theorems;
pub mod xml_dom;
pub mod xml_item;

pub use error::XmlError;
pub use text::{substr_any, substr_try};
pub use xml_item::{XmlDom, XmlItem, XmlItemRc};
