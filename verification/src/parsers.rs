pub mod csv;
pub mod digit;
pub mod json;

pub use self::csv::{parse_csv, read_csv};
pub use self::json::parse_json;
