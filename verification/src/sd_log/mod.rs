pub mod record;
pub mod parser;
