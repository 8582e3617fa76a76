//! Symbolic resolution and evaluation engine for arithmetic expressions over
//! layered symbol tables: named constants and user variables whose definitions
//! are themselves expression text, possibly referencing other names.
//!
//! Resolution rewrites the expression textually: numeric-literal suffixes are
//! stripped, every whole-word symbol reference is replaced by the numeric text
//! its definition reduces to, and the fully numeric expression is handed to an
//! external arithmetic evaluator.

pub mod text;
pub mod literal;
pub mod rewrite;
pub mod table;
pub mod evaluator;
pub mod resolver;
pub mod laws;
pub mod listing;

pub use listing::search_pairs;
pub use listing::sorted_by_name;
pub use literal::normalize_text;
pub use resolver::ResolveError;
pub use table::SymbolTable;
