// Request handling for a WebDAV server over one directory: resolving request
// paths under the root and keeping them there, reading the Depth header,
// deciding what each verb does, and planning the copy, move and delete of
// whole subtrees, with the laws those plans obey over a model of the
// filesystem.

pub mod headers;
pub mod laws;
pub mod path;
pub mod tree;
pub mod verbs;
