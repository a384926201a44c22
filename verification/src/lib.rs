//! Typesetting of restaurant menus: dishes are grouped by category, their
//! text is escaped for the output format and their prices are formatted,
//! ready to be substituted into a document template.

pub mod decode;
pub mod grouping;
pub mod helpers;
pub mod menu;
pub mod pipeline;
pub mod price;
pub mod text;

pub use decode::{collect_rows, DecodePolicy};
pub use grouping::{group_dishes, grouped_to_categories, Grouping};
pub use helpers::{HelperArgument, HelperKind};
pub use menu::{MenuCategory, MenuItem};
pub use pipeline::{advance, Action, Config, Event, Failure, Stage, Step};
pub use price::{do_format_price, format_price, format_price_or, Price};
pub use text::{escape_strings, trim};
