//! Renders a file or a directory tree as a structured text report: an
//! outline of the surviving paths followed by one block per file.
//!
//! The tree is handed over as an [`Entry`] value and the report is appended
//! to a `String`; nothing here touches the file system. Exclusion rules are
//! glob patterns matched against the path relative to the root. Within a
//! directory, files are visited before directories and each group in the
//! byte order of the names.

pub mod entry;
pub mod format;
pub mod guarantees;
pub mod ignore;
pub mod ordering;
pub mod paths;
pub mod render;
pub mod text;
pub mod walk;

pub use entry::Entry;
pub use format::RenderedFormat;
pub use render::Path2MdWriteError;
pub use render::Path2MdWriteFileContentsError;
pub use text::strip_root;
pub use text::StripRootError;
pub use walk::Path2Md;
pub use walk::WalkNode;
pub use walk::WalkPathError;
