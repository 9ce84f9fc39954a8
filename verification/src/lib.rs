//! The logic of an HTML `table` element: its sections, caption and rows,
//! and the attributes it reflects.
pub mod attr;
pub mod error;
pub mod laws;
pub mod lemmas;
pub mod node;
pub mod rows;
pub mod table;

pub use attr::{PlainAttribute, TableAttr};
pub use error::TableError;
pub use node::{ChildTest, Node, NodeKind, RowLocation, SectionKind, TableChild};
pub use table::{
    ElementParent, HTMLTableElement, HTMLTableElementLayoutHelpers, NodeRef, SectionSlot, TBodies, TableRowFilter,
    TableRows,
};
