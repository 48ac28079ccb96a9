pub mod path;
pub mod sorting;
pub mod text;
pub mod tree;
pub mod formatter;
pub mod scanner;
pub mod cli;
pub mod git;
pub mod scan_laws;
pub mod scan_order;
