//! Comma-separated text, read into tables and written back.
//!
//! Two dialects share one record structure. The raw dialect of [`csv`] keeps
//! every field as written, quotes included; the typed dialect of
//! [`typed_csv`] tells numbers from strings and strips the quotes of a string.
//! [`csv`] also lays a raw table out as padded text, as a ruled text table and
//! as HTML rows.

pub mod csv;
pub mod error;
pub mod lines;
pub mod round_trip;
pub mod spelling;
pub mod text;
pub mod typed_csv;

pub use csv::{
    convert_csv as official_convert_csv, parse_csv as official_parse_csv,
    print_html_table as official_print_html_table, print_padded_table as official_print_padded_table,
    print_table as official_print_table,
};
