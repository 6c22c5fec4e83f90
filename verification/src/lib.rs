//! Verified core of a command-line client for Moodle: the rendering of
//! results, the matching of courses and files, the decoding of single
//! sign-on tokens and the decisions taken while synchronising courses.

pub mod configure;
pub mod content;
pub mod courses;
pub mod get;
pub mod model;
pub mod output;
pub mod search;
pub mod select;
pub mod size;
pub mod sso;
pub mod status;
pub mod sync;
pub mod text;

pub use content::strip_html_tags;
pub use courses::find_course;
pub use output::{OutputFormat, Render};
pub use size::format_size;
pub use sso::extract_token_from_sso_url;
