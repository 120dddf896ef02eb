//! Format rules.
pub mod regions;
pub mod trailing_whitespace;
pub mod keyword_spacing;
pub mod heading_spacing;
pub mod timestamp_spacing;
pub mod table_formatter;
pub mod list_format;
