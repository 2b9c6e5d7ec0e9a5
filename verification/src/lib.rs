pub mod error;
pub mod text;
pub mod selection;
pub mod json;
pub mod notebook;
pub mod output_limit;
pub mod read;
pub mod edit;
pub mod ops;
pub mod ids;
pub mod diff;
pub mod scripts;
pub mod kernels;
pub mod run;
pub mod session;
pub mod mcp;
pub mod pattern;
pub mod cli;
pub mod cell_edit;
