//! MySQL-compatible JSON path extraction over an owned JSON document tree.
//!
//! A document is a [`value::Json`] tree; a path expression is a sequence of
//! [`path_expr::PathLeg`]s. Extraction walks the tree, collects the matching
//! sub-documents, suppresses duplicates that denote the same node location,
//! and wraps the result according to the wildcard rules.

pub mod json_extract;
pub mod laws;
pub mod match_spec;
pub mod path_expr;
pub mod value;

pub use json_extract::extract_json;
pub use path_expr::IndexSelector;
pub use path_expr::KeySelector;
pub use path_expr::PathExpression;
pub use path_expr::PathExpressionFlag;
pub use path_expr::PathLeg;
pub use value::EntryModel;
pub use value::Json;
pub use value::JsonEntry;
pub use value::JsonModel;
pub use value::JsonRef;
