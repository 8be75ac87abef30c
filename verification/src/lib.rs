//! URL utilities for a browser shell: stepping the numeric page token of a
//! URL by a signed offset, reducing a host to its base domain, extracting
//! hosts and filenames, testing whether free-form input looks like a URL,
//! and normalizing bookmark-tag input.

pub mod bookmarks;
pub mod ext;
pub mod num;
pub mod urls;
