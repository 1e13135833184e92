pub mod counter;
pub mod domain;
pub mod keyed;
pub mod lists;
pub mod parser;
pub mod report;
pub mod strings;
pub mod tally;
