//! The core of FlintBrain, a note-taking application over a folder of markdown
//! files: the note format, the wiki-links between notes, and the index that is
//! rebuilt from the files.
pub mod frontmatter;
pub mod index;
pub mod links;
pub mod note;
pub mod order;
pub mod paths;
pub mod session;
pub mod tables;
pub mod text;
pub mod titles;
pub mod vault;
