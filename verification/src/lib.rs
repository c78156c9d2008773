pub mod environment;
pub mod metadata;
pub mod mount;
pub mod prefix_replacement;
pub mod replacement_laws;
pub mod search;
pub mod virtual_fs_core;

pub use environment::path_parse;
pub use mount::MountBackend;
