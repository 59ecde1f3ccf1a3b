//! Application-launcher core: parsing of desktop-entry descriptor text into
//! validated records, grouping of the parsed records into named categories,
//! and deterministic ranking of the store against integer similarity scores.

pub mod category;
pub mod desktop;
pub mod order;
pub mod rank;
pub mod store;
pub mod text;
