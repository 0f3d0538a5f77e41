//! Launcher (desktop entry) records, their MIME associations, and the
//! shared MIME-info glob index used to resolve file extensions.

pub mod associations;
pub mod catalog;
pub mod codec;
pub mod entry;
pub mod glob;
pub mod hints;
pub mod ini_doc;
pub mod paths;
pub mod resolver;
pub mod text;

pub use associations::{extension_label, AssociationSet};
pub use catalog::{can_write, has_desktop_extension, icon_source, remove_by_path, sort_by_name, IconSource};
pub use entry::{DesktopEntry, EntryError};
pub use glob::{
    build_mime_extension_map, extract_extension_from_pattern, mime_description, parse_glob_line,
    parse_weight, GlobIndex, MimeChoice,
};
pub use hints::ExtensionHints;
pub use paths::{mime_database_paths, push_unique_path};
pub use resolver::{
    classify_input, resolve_extension, resolve_mime_from_input, synthetic_file_name, ContentGuess,
    MimeInput,
};
