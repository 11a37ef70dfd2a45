//! Renaming of file and directory names to Unicode Normalization Form C.
//!
//! Nothing is renamed onto a name that is taken: a file whose normalized name
//! is taken ends the walk, and so does an entry of a merge whose place in the
//! destination is taken. Only a directory that meets its own normalized name
//! goes on, and is merged into what stands there.
//!
//! The library decides; its caller touches the filesystem. `normalize` holds
//! the normal form of a single name, `entry` what to ask for on behalf of one
//! entry, and `walk` the traversal of a directory tree as a sequence of
//! requests and answers. `laws` states what holds of every walk, and `tree`
//! what a walk makes of a directory tree: after a walk that has ended well
//! every name is normalized and no path is lost, and a second walk changes
//! nothing.

pub mod action;
pub mod entry;
pub mod laws;
pub mod normalize;
pub mod path;
pub mod tree;
pub mod walk;
