pub mod collections;
pub mod fmt;
pub mod table;
pub mod math;
pub mod sys;
pub mod genetic;
pub mod file;
pub mod progress;
pub mod plot;
