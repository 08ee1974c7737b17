//! Multi-file resolution and pragma propagation for a compiler frontend:
//! the worklist of files still to be parsed, the graph of which file pulls in
//! which, the compiler-version gates and the comment-masking preprocessor.

pub mod diagnostics;
pub mod driver;
pub mod file_stack;
pub mod files;
pub mod includes_graph;
pub mod paths;
pub mod parser_logic;
pub mod version;
