//! Batch renaming of files by one of three rules: zero-padding a leading
//! number, replacing whitespace in the name by a separator, and normalising
//! the case of the extension.
//!
//! The library decides; it never touches the file system. A caller lists the
//! entries below a directory, asks for a [`Plan`], and carries it out.

pub mod batch;
pub mod config;
pub mod decimal;
pub mod names;
pub mod plan;
pub mod text;

pub use batch::{advance, next_step, Progress, Step};
pub use config::Config;
pub use names::{
    ext_name, number_name, number_name_at, replace_extension, space_name, NumberError,
};
pub use plan::{
    decide, fix_ext, fix_number, fix_space, is_hidden, make_plan, parse_width, run,
    starts_with_number, Decision, Entry, Fault, Plan, Rename, Rule,
};
