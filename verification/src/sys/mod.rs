pub mod mem;
pub mod cpu;
