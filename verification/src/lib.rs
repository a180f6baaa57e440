//! Changesets: records of what a change asks of the packages of a project.
//!
//! A changeset holds a summary and, for each package that the change
//! touches, the kind of version bump that it asks for.
//!
//! - `semver_type`: the kinds of bump, their tokens and their precedence.
//! - `changeset`: changesets, and writing them as text and reading them back.
//! - `frontmatter`, `metadata`, `text`: the parts of the text form;
//!   `encoding`: how characters and bytes correspond.
//! - `round_trip`: what holds of writing and reading together.
//! - `package_set`, `selector`: making the releases of a changeset from
//!   selections of packages.
//! - `workspace`, `artifact`: the packages of a project, and the file that a
//!   changeset is kept in.

pub mod artifact;
pub mod changeset;
pub mod encoding;
pub mod error;
pub mod frontmatter;
pub mod metadata;
pub mod package_set;
pub mod round_trip;
pub mod selector;
pub mod semver_type;
pub mod text;
pub mod workspace;

pub use changeset::{Changeset, Release};
pub use error::DecodeError;
pub use frontmatter::find_frontmatter;
pub use package_set::PackageSet;
pub use semver_type::SemverType;
