pub mod cycle;
pub mod datetime;
pub mod digits;
pub mod parser;
pub mod time;
