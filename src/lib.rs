//! In-memory virtual filesystem built from a ZIP archive, with verified path
//! handling, selective loading and a consistent directory index; and the
//! shared-string table of a spreadsheet package read from it.

pub mod filters;
pub mod path_utils;
pub mod shared_strings;
pub mod zipfs;

pub use filters::FilterSet;
pub use path_utils::{is_safe_path, normalize_dir, normalize_path, parent_dir, validate_path};
pub use shared_strings::SharedStrings;
pub use zipfs::{ZipFs, ZipFsError};
