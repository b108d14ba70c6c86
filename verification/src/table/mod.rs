pub mod cell;
pub mod row;
pub mod table;

pub use crate::table::cell::{Align, Cell, Style};
pub use crate::table::row::{ColumnJoinType, Row};
pub use crate::table::table::Table;
