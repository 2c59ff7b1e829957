//! A small command-line option parsing library.
//!
//! A caller registers options (boolean switches and value-taking options,
//! each known by one or more alias strings), parses an argument vector,
//! queries the results by any alias, and may reset all state for reuse.

pub mod laws;
pub mod options;
pub mod parser;
pub mod text;

pub use options::fancy_options;
pub use options::is_str_option;
pub use options::new_bool_option;
pub use options::new_option;
pub use options::new_str_option;
pub use options::new_str_option_fancy;
pub use options::Opt;
pub use options::OptKind;
pub use options::RoptError;
pub use parser::juxta_split;
pub use parser::new_parser;
pub use parser::Parser;
pub use text::join_spaces;
pub use text::split_spaces;
