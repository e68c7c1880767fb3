pub mod differ;
pub mod line_diff;
pub mod order;
pub mod ordered_set;
pub mod parser;
pub mod sql_text;
pub mod statement;
pub mod types;
